//! The addresses of a `From` header, read by the `mail-parser` crate.

use vstd::prelude::*;
use mail_parser::parsers::MessageStream;
use mail_parser::{Addr, HeaderValue};

verus! {

/// The address fields that `mail-parser` reads from the value of an address
/// header, in the order of the header: one entry for each mailbox, which is
/// `None` where the mailbox has a name but no address.
pub uninterp spec fn parsed_addresses(value: Seq<u8>) -> Seq<Option<Seq<char>>>;

/// The lower-case form of a string, as `str::to_lowercase` defines it.
pub uninterp spec fn lowercase(text: Seq<char>) -> Seq<char>;

/// The values of a list of address fields.
pub open spec fn address_views(items: Seq<Option<String>>) -> Seq<Option<Seq<char>>> {
    Seq::new(
        items.len(),
        |i: int|
            match items[i] {
                Some(a) => Some(a@),
                None => None,
            },
    )
}

/// Calls `MessageStream::new` and `MessageStream::parse_address` of
/// `mail-parser`, and hands out the `address` field of every mailbox of the
/// result: of the single address, of the address list, or of the groups in
/// their order. Trusted: that the parser returns on every input, and that
/// its result is a function of the bytes alone.
#[verifier::external_body]
pub(crate) fn parse_address(value: &[u8]) -> (r: Vec<Option<String>>)
    ensures
        address_views(r@) == parsed_addresses(value@),
{
    let field = |a: Addr| a.address.map(|text| text.into_owned());
    match MessageStream::new(value).parse_address() {
        HeaderValue::Address(a) => vec![field(a)],
        HeaderValue::AddressList(list) => list.into_iter().map(field).collect(),
        HeaderValue::Group(group) => group.addresses.into_iter().map(field).collect(),
        HeaderValue::GroupList(list) => {
            list.into_iter().flat_map(|group| group.addresses).map(field).collect()
        },
        _ => Vec::new(),
    }
}

/// Calls `str::to_lowercase`. Trusted: that the result is a function of the
/// text alone.
#[verifier::external_body]
pub(crate) fn to_lowercase(text: &String) -> (r: String)
    ensures
        r@ == lowercase(text@),
{
    text.to_lowercase()
}

/// The addresses among the fields `items`, each in lower case.
pub open spec fn lowered_addresses(items: Seq<Option<Seq<char>>>) -> Seq<Seq<char>>
    decreases items.len(),
{
    if items.len() == 0 {
        Seq::empty()
    } else {
        match items.last() {
            Some(a) => lowered_addresses(items.drop_last()).push(lowercase(a)),
            None => lowered_addresses(items.drop_last()),
        }
    }
}

/// The values of a list of strings.
pub open spec fn string_views(items: Seq<String>) -> Seq<Seq<char>> {
    Seq::new(items.len(), |i: int| items[i]@)
}

/// Adds to `from` every address among the parsed fields, in lower case and
/// in their order. Fields without an address are passed over.
pub fn collect_addresses(from: &mut Vec<String>, parsed: &Vec<Option<String>>)
    ensures
        string_views(final(from)@) == string_views(old(from)@) + lowered_addresses(
            address_views(parsed@),
        ),
{
    let mut k: usize = 0;
    assert(address_views(parsed@).subrange(0, 0) =~= Seq::<Option<Seq<char>>>::empty());
    assert(string_views(from@) + Seq::<Seq<char>>::empty() =~= string_views(from@));
    while k < parsed.len()
        invariant
            k <= parsed@.len(),
            string_views(from@) == string_views(old(from)@) + lowered_addresses(
                address_views(parsed@).subrange(0, k as int),
            ),
        decreases parsed@.len() - k,
    {
        let ghost before = string_views(from@);
        let ghost fields = address_views(parsed@);
        assert(fields.subrange(0, k + 1).drop_last() =~= fields.subrange(0, k as int));
        assert(fields.subrange(0, k + 1).last() == fields[k as int]);
        match &parsed[k] {
            Some(address) => {
                let low = to_lowercase(address);
                from.push(low);
                assert(string_views(from@) =~= before.push(lowercase(address@)));
            },
            None => {},
        }
        k += 1;
    }
    assert(address_views(parsed@).subrange(0, k as int) =~= address_views(parsed@));
}

} // verus!
