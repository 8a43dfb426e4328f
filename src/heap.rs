use vstd::prelude::*;
use crate::value::RawValue;

verus! {

/// An object of the interpreter's heap, as far as the embedding layer sees it.
#[derive(Debug)]
pub enum Object {
    /// An interned string.
    Str(Vec<u8>),
    /// A table, as the sequence of raw assignments made to it; a later
    /// assignment to a key shadows an earlier one.
    Table(Vec<(RawValue, RawValue)>),
    /// A host callback. `payload` is the host's handle of the closure; `None`
    /// once a scope has detached it. `exclusive` marks a mutable closure, and
    /// `busy` that such a closure is running.
    Callback { payload: Option<u64>, exclusive: bool, busy: bool },
    /// The lookup closure that consults a methods table first and a custom
    /// index handler after it.
    IndexChain { methods: RawValue, fallback: RawValue },
    /// The finalizer that drops a host payload when its object is collected.
    Finalizer,
    /// A built-in function of the interpreter, by name.
    Native(&'static str),
    /// A coroutine running `body`.
    Thread { body: RawValue },
    /// A host object of type `type_id`, with its host handle `payload` (`None`
    /// once a scope has detached it) and its dispatch table.
    UserData { type_id: u64, payload: Option<u64>, metatable: RawValue },
}

/// What a table maps `k` to: the value of the latest assignment to `k`, or nil.
pub open spec fn lookup(entries: Seq<(RawValue, RawValue)>, k: RawValue) -> RawValue
    decreases entries.len(),
{
    if entries.len() == 0 {
        RawValue::Nil
    } else if entries.last().0 == k {
        entries.last().1
    } else {
        lookup(entries.drop_last(), k)
    }
}

/// Finds what a table maps `k` to.
pub fn table_lookup(entries: &Vec<(RawValue, RawValue)>, k: RawValue) -> (r: RawValue)
    ensures
        r == lookup(entries@, k),
{
    let mut i: usize = entries.len();
    assert(entries@.subrange(0, i as int) =~= entries@);
    while i > 0
        invariant
            i <= entries@.len(),
            lookup(entries@, k) == lookup(entries@.subrange(0, i as int), k),
        decreases i,
    {
        let ghost prefix = entries@.subrange(0, i as int);
        assert(prefix.drop_last() =~= entries@.subrange(0, i - 1));
        if entries[i - 1].0 == k {
            return entries[i - 1].1;
        }
        i = i - 1;
    }
    assert(entries@.subrange(0, 0).len() == 0);
    RawValue::Nil
}

/// Whether two byte strings are equal.
pub fn bytes_eq(a: &Vec<u8>, b: &Vec<u8>) -> (r: bool)
    ensures
        r == (a@ == b@),
{
    if a.len() != b.len() {
        return false;
    }
    let mut i: usize = 0;
    while i < a.len()
        invariant
            a@.len() == b@.len(),
            i <= a@.len(),
            forall|j: int| 0 <= j < i ==> a@[j] == b@[j],
        decreases a@.len() - i,
    {
        if a[i] != b[i] {
            return false;
        }
        i = i + 1;
    }
    assert(a@ =~= b@);
    true
}

/// A copy of a byte string.
pub fn bytes_copy(a: &[u8]) -> (r: Vec<u8>)
    ensures
        r@ == a@,
{
    let mut r: Vec<u8> = Vec::new();
    let mut i: usize = 0;
    while i < a.len()
        invariant
            i <= a@.len(),
            r@ == a@.subrange(0, i as int),
        decreases a@.len() - i,
    {
        r.push(a[i]);
        i = i + 1;
        assert(r@ =~= a@.subrange(0, i as int));
    }
    assert(a@.subrange(0, a@.len() as int) =~= a@);
    r
}

} // verus!
