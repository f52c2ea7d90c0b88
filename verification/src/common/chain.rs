//! The order of an ARC chain: the headers of each family, sorted by the
//! instance of their hop.

use vstd::prelude::*;
use crate::arc::Instance;
use crate::error::Error;

verus! {

/// A header of a message with what was made of its value.
#[derive(Debug, Clone, Copy, PartialEq, Eq)]
pub struct Header<'x, T> {
    pub name: &'x [u8],
    pub value: &'x [u8],
    pub header: T,
}

/// The mathematical value of a [`Header`].
pub struct HeaderView<T> {
    pub name: Seq<u8>,
    pub value: Seq<u8>,
    pub header: T,
}

impl<'x, T> Header<'x, T> {
    pub open spec fn view(&self) -> HeaderView<T> {
        HeaderView { name: self.name@, value: self.value@, header: self.header }
    }

    pub fn new(name: &'x [u8], value: &'x [u8], header: T) -> (h: Self)
        ensures
            h.name == name,
            h.value == value,
            h.header == header,
    {
        Header { name, value, header }
    }
}

/// The values of a sequence of headers.
pub open spec fn header_views<'x, T>(items: Seq<Header<'x, T>>) -> Seq<HeaderView<T>> {
    Seq::new(items.len(), |i: int| items[i]@)
}

/// The instance of a descriptor, and 0 where there is none.
pub open spec fn instance_key<D: Instance>(header: Result<D, Error>) -> int {
    match header {
        Ok(d) => d.instance_of() as int,
        Err(_) => 0,
    }
}

/// The instance by which a header is ordered: that of its descriptor.
pub open spec fn key_of<D: Instance>(h: HeaderView<Result<D, Error>>) -> int {
    instance_key(h.header)
}

/// The place of a header with instance `key` in a sorted sequence: behind
/// the last header whose instance is not larger.
pub open spec fn insert_point<D: Instance>(
    sorted: Seq<HeaderView<Result<D, Error>>>,
    key: int,
) -> int
    decreases sorted.len(),
{
    if sorted.len() == 0 {
        0
    } else if key_of(sorted.last()) <= key {
        sorted.len() as int
    } else {
        insert_point(sorted.drop_last(), key)
    }
}

/// The headers in ascending order of their instances; headers of one
/// instance keep the order in which they stand.
pub open spec fn sorted_by_instance<D: Instance>(items: Seq<HeaderView<Result<D, Error>>>) -> Seq<
    HeaderView<Result<D, Error>>,
>
    decreases items.len(),
{
    if items.len() == 0 {
        Seq::empty()
    } else {
        let rest = sorted_by_instance(items.drop_last());
        rest.insert(insert_point(rest, key_of(items.last())), items.last())
    }
}

/// The instances of `items` ascend.
pub open spec fn is_ascending<D: Instance>(items: Seq<HeaderView<Result<D, Error>>>) -> bool {
    forall|i: int, j: int| 0 <= i <= j < items.len() ==> key_of(items[i]) <= key_of(items[j])
}

/// The place of a header lies within the sequence; the headers before it
/// have an instance that is not larger, given that the sequence ascends,
/// and those behind it a larger one.
pub proof fn lemma_insert_point<D: Instance>(sorted: Seq<HeaderView<Result<D, Error>>>, key: int)
    ensures
        0 <= insert_point(sorted, key) <= sorted.len(),
        forall|j: int| insert_point(sorted, key) <= j < sorted.len() ==> key_of(sorted[j]) > key,
        is_ascending(sorted) ==> forall|j: int|
            0 <= j < insert_point(sorted, key) ==> key_of(sorted[j]) <= key,
    decreases sorted.len(),
{
    if sorted.len() > 0 && key_of(sorted.last()) > key {
        lemma_insert_point(sorted.drop_last(), key);
        let p = insert_point(sorted.drop_last(), key);
        assert forall|j: int| p <= j < sorted.len() implies key_of(sorted[j]) > key by {
            if j < sorted.len() - 1 {
                assert(sorted.drop_last()[j] == sorted[j]);
            }
        }
        if is_ascending(sorted) {
            assert(is_ascending(sorted.drop_last())) by {
                assert forall|i: int, j: int| 0 <= i <= j < sorted.drop_last().len() implies key_of(
                    sorted.drop_last()[i],
                ) <= key_of(sorted.drop_last()[j]) by {
                    assert(sorted.drop_last()[i] == sorted[i]);
                    assert(sorted.drop_last()[j] == sorted[j]);
                }
            }
            assert forall|j: int| 0 <= j < p implies key_of(sorted[j]) <= key by {
                assert(sorted.drop_last()[j] == sorted[j]);
            }
        }
    }
}

/// Sorting yields the same headers, each as often as before, in ascending
/// order of their instances.
pub proof fn lemma_sorted_by_instance<D: Instance>(items: Seq<HeaderView<Result<D, Error>>>)
    ensures
        is_ascending(sorted_by_instance(items)),
        sorted_by_instance(items).len() == items.len(),
        sorted_by_instance(items).to_multiset() == items.to_multiset(),
    decreases items.len(),
{
    if items.len() == 0 {
        assert(items =~= Seq::empty());
    } else {
        let rest = sorted_by_instance(items.drop_last());
        let x = items.last();
        let p = insert_point(rest, key_of(x));
        lemma_sorted_by_instance(items.drop_last());
        lemma_insert_point(rest, key_of(x));
        let out = rest.insert(p, x);
        assert forall|i: int, j: int| 0 <= i <= j < out.len() implies key_of(out[i]) <= key_of(
            out[j],
        ) by {
            if i < p && j > p {
                assert(out[i] == rest[i]);
                assert(out[j] == rest[j - 1]);
            } else if i < p && j < p {
                assert(out[i] == rest[i] && out[j] == rest[j]);
            } else if i > p {
                assert(out[i] == rest[i - 1] && out[j] == rest[j - 1]);
            } else if i == p && j > p {
                assert(out[j] == rest[j - 1]);
            } else if j == p && i < p {
                assert(out[i] == rest[i]);
            }
        }
        assert(out.to_multiset() =~= rest.to_multiset().insert(x)) by {
            vstd::seq_lib::to_multiset_remove(out, p);
            assert(out.remove(p) =~= rest);
            out.to_multiset_ensures();
            assert(out[p] == x);
            assert(out.contains(x));
        }
        assert(items =~= items.drop_last().push(x));
        vstd::seq_lib::to_multiset_build(items.drop_last(), x);
    }
}

/// The instance by which a parsed header is ordered.
fn key<D: Instance>(header: &Result<D, Error>) -> (k: u32)
    ensures
        k == instance_key(*header),
{
    match header {
        Ok(d) => d.instance(),
        Err(_) => 0,
    }
}

/// Sorts the headers of one family by their instances, stably.
pub fn sort_by_instance<'x, D: Instance + Copy>(items: &Vec<Header<'x, Result<D, Error>>>) -> (out:
    Vec<Header<'x, Result<D, Error>>>)
    ensures
        header_views(out@) == sorted_by_instance(header_views(items@)),
{
    let mut out: Vec<Header<'x, Result<D, Error>>> = Vec::new();
    let mut k: usize = 0;
    let ghost all = header_views(items@);
    assert(all.subrange(0, 0) =~= Seq::empty());
    assert(header_views(out@) =~= Seq::empty());
    while k < items.len()
        invariant
            k <= items@.len(),
            all == header_views(items@),
            header_views(out@) == sorted_by_instance(all.subrange(0, k as int)),
        decreases items@.len() - k,
    {
        let x = items[k];
        let x_key = key(&x.header);
        assert(x_key == key_of(x@));
        let ghost rest = header_views(out@);
        let mut p = out.len();
        assert(rest.subrange(0, p as int) =~= rest);
        while p > 0 && key(&out[p - 1].header) > x_key
            invariant
                p <= out@.len(),
                rest == header_views(out@),
                insert_point(rest, x_key as int) == insert_point(
                    rest.subrange(0, p as int),
                    x_key as int,
                ),
            decreases p,
        {
            assert(key_of(out@[p - 1]@) == key_of(rest.subrange(0, p as int).last()));
            assert(rest.subrange(0, p as int).drop_last() =~= rest.subrange(0, p - 1));
            p -= 1;
        }
        proof {
            if p > 0 {
                assert(key_of(out@[p - 1]@) == key_of(rest.subrange(0, p as int).last()));
            }
        }
        out.insert(p, x);
        assert(header_views(out@) =~= rest.insert(p as int, x@));
        assert(all.subrange(0, k + 1).drop_last() =~= all.subrange(0, k as int));
        assert(all.subrange(0, k + 1).last() == x@);
        k += 1;
    }
    assert(all.subrange(0, k as int) =~= all);
    out
}

} // verus!
