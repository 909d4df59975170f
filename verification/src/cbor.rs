//! A scan of CBOR bytes before they are decoded: the bytes are walked item
//! by item, and only bytes in which every declared length is covered by
//! the bytes that follow, and in which lists and maps are not nested too
//! deep, are handed to the decoder.

use vstd::prelude::*;

verus! {

/// The greatest number of lists and maps that stand one inside the other
/// in a block that is decoded.
pub const MAX_NESTING: usize = 64;

/// How many bytes after the first byte of an item hold its argument.
pub open spec fn extra(info: int) -> int {
    if info < 24 {
        0
    } else if info == 24 {
        1
    } else if info == 25 {
        2
    } else if info == 26 {
        4
    } else {
        8
    }
}

/// The number that the `n` bytes from `from` on hold, the highest byte
/// first.
pub open spec fn be_value(bytes: Seq<u8>, from: int, n: int) -> int
    decreases n,
{
    if n <= 0 {
        0
    } else {
        be_value(bytes, from, n - 1) * 256 + bytes[from + n - 1] as int
    }
}

/// The argument of the item at `at`: for a string the number of its
/// bytes, for a list the number of its items, for a map the number of its
/// entries.
pub open spec fn declared(bytes: Seq<u8>, at: int, info: int) -> int {
    if info < 24 {
        info
    } else {
        be_value(bytes, at + 1, extra(info))
    }
}

/// Whether a first byte stands for `false`, `true`, null, undefined or a
/// floating-point number of four or eight bytes.
pub open spec fn is_simple(head: int) -> bool {
    0xf4 <= head <= 0xf7 || head == 0xfa || head == 0xfb
}

/// Whether the bytes from `at` on hold the items that are still to come:
/// `pending` says for each list or map that is open, the innermost last,
/// how many items are still to come, or `None` where the items go on until
/// a break. Every item must lie within the bytes; a string, a list or a
/// map must declare no more bytes, items or entries than bytes follow;
/// strings of indefinite length and tags other than the one-byte tag are
/// refused; no more than `MAX_NESTING` lists and maps are open at a time.
pub open spec fn safe_from(bytes: Seq<u8>, at: int, pending: Seq<Option<int>>) -> bool
    decreases bytes.len() - at, pending.len(),
{
    if pending.len() == 0 {
        true
    } else if pending.last() matches Some(count) && count <= 0 {
        safe_from(bytes, at, pending.drop_last())
    } else if at < 0 || at >= bytes.len() {
        false
    } else {
        let head = bytes[at] as int;
        let major = head / 32;
        let info = head % 32;
        let next = at + 1 + extra(info);
        let rest = one_less(pending);
        if head == 0xd8 {
            at + 2 <= bytes.len() && safe_from(bytes, at + 2, pending)
        } else if head == 0xff {
            pending.last() is None && safe_from(bytes, at + 1, pending.drop_last())
        } else if head == 0x9f || head == 0xbf {
            pending.len() < MAX_NESTING && safe_from(bytes, at + 1, rest.push(None))
        } else if info > 27 || next > bytes.len() || major == 6 {
            false
        } else if major == 0 || major == 1 {
            safe_from(bytes, next, rest)
        } else if major == 7 {
            is_simple(head) && safe_from(bytes, next, rest)
        } else {
            let n = declared(bytes, at, info);
            if major == 2 || major == 3 {
                0 <= n <= bytes.len() - next && safe_from(bytes, next + n, rest)
            } else if pending.len() >= MAX_NESTING {
                false
            } else if major == 4 {
                0 <= n <= bytes.len() - next && safe_from(bytes, next, rest.push(Some(n)))
            } else {
                0 <= n && 2 * n <= bytes.len() - next && safe_from(
                    bytes,
                    next,
                    rest.push(Some(2 * n)),
                )
            }
        }
    }
}

/// What is still to come after one more item of the innermost list or map.
pub open spec fn one_less(pending: Seq<Option<int>>) -> Seq<Option<int>> {
    match pending.last() {
        Some(count) => pending.update(pending.len() - 1, Some(count - 1)),
        None => pending,
    }
}

/// Whether bytes are fit to be decoded: the item at their head is covered
/// by them, with all that it holds.
pub open spec fn cbor_safe(bytes: Seq<u8>) -> bool {
    safe_from(bytes, 0, seq![Some(1int)])
}

/// What is still to come as contracts see it.
pub open spec fn counts(pending: Seq<Option<usize>>) -> Seq<Option<int>> {
    Seq::new(
        pending.len(),
        |i: int|
            match pending[i] {
                Some(count) => Some(count as int),
                None => None,
            },
    )
}

/// Reads the argument of the item at `at`.
pub fn read_declared(bytes: &[u8], at: usize, info: u8) -> (r: u64)
    requires
        info <= 27,
        at + 1 + extra(info as int) <= bytes@.len(),
    ensures
        r == declared(bytes@, at as int, info as int),
{
    let total: usize = bytes.len();
    proof {
        reveal_with_fuel(be_value, 9);
        assert(at + 1 + extra(info as int) <= total);
    }
    if info < 24 {
        info as u64
    } else if info == 24 {
        bytes[at + 1] as u64
    } else if info == 25 {
        read_two(bytes, at + 1)
    } else if info == 26 {
        let high: u64 = read_two(bytes, at + 1);
        let low: u64 = read_two(bytes, at + 3);
        high * 0x1_0000 + low
    } else {
        let a: u64 = read_two(bytes, at + 1);
        let b: u64 = read_two(bytes, at + 3);
        let c: u64 = read_two(bytes, at + 5);
        let d: u64 = read_two(bytes, at + 7);
        ((a * 0x1_0000 + b) * 0x1_0000 + c) * 0x1_0000 + d
    }
}

/// Reads the number that the two bytes from `from` on hold, the higher
/// byte first.
fn read_two(bytes: &[u8], from: usize) -> (r: u64)
    requires
        from + 2 <= bytes@.len(),
    ensures
        r == bytes@[from as int] * 256 + bytes@[from + 1],
        r <= 0xffff,
{
    bytes[from] as u64 * 256 + bytes[from + 1] as u64
}

/// Tells whether bytes are fit to be decoded.
pub fn is_safe(bytes: &[u8]) -> (r: bool)
    ensures
        r == cbor_safe(bytes@),
{
    let mut pending: Vec<Option<usize>> = Vec::new();
    pending.push(Some(1));
    let mut at: usize = 0;
    proof {
        assert(counts(pending@) =~= seq![Some(1int)]);
    }
    while pending.len() > 0
        invariant
            at <= bytes@.len(),
            pending.len() <= MAX_NESTING,
            cbor_safe(bytes@) == safe_from(bytes@, at as int, counts(pending@)),
        decreases bytes@.len() - at, pending.len(),
    {
        let last: usize = pending.len() - 1;
        let top: Option<usize> = pending[last];
        let ghost before = counts(pending@);
        let ghost rest = one_less(before);
        proof {
            assert(before.last() == match top {
                Some(count) => Some(count as int),
                None => None::<int>,
            });
        }
        if top == Some(0) {
            pending.pop();
            proof {
                assert(counts(pending@) =~= before.drop_last());
            }
        } else if at >= bytes.len() {
            return false;
        } else {
            let head: u8 = bytes[at];
            if head == 0xd8 {
                if bytes.len() - at < 2 {
                    return false;
                }
                at = at + 2;
            } else if head == 0xff {
                if top.is_some() {
                    return false;
                }
                pending.pop();
                proof {
                    assert(counts(pending@) =~= before.drop_last());
                }
                at = at + 1;
            } else if head == 0x9f || head == 0xbf {
                if pending.len() >= MAX_NESTING {
                    return false;
                }
                count_one(&mut pending);
                pending.push(None);
                proof {
                    assert(counts(pending@) =~= rest.push(None));
                }
                at = at + 1;
            } else {
                let major: u8 = head / 32;
                let info: u8 = head % 32;
                let more: usize = if info < 24 {
                    0
                } else if info == 24 {
                    1
                } else if info == 25 {
                    2
                } else if info == 26 {
                    4
                } else {
                    8
                };
                if info > 27 || more > bytes.len() - at - 1 || major == 6 {
                    return false;
                }
                let next: usize = at + 1 + more;
                if major == 0 || major == 1 {
                    count_one(&mut pending);
                    at = next;
                } else if major == 7 {
                    if !(0xf4 <= head && head <= 0xf7 || head == 0xfa || head == 0xfb) {
                        return false;
                    }
                    count_one(&mut pending);
                    at = next;
                } else {
                    let left: usize = bytes.len() - next;
                    let declared: u64 = read_declared(bytes, at, info);
                    if declared > left as u64 {
                        return false;
                    }
                    let n: usize = declared as usize;
                    if major == 2 || major == 3 {
                        count_one(&mut pending);
                        at = next + n;
                    } else if pending.len() >= MAX_NESTING {
                        return false;
                    } else if major == 4 {
                        count_one(&mut pending);
                        pending.push(Some(n));
                        proof {
                            assert(counts(pending@) =~= rest.push(Some(n as int)));
                        }
                        at = next;
                    } else {
                        if n > left / 2 {
                            return false;
                        }
                        count_one(&mut pending);
                        pending.push(Some(2 * n));
                        proof {
                            assert(counts(pending@) =~= rest.push(Some(2 * n)));
                        }
                        at = next;
                    }
                }
            }
        }
    }
    true
}

/// Counts one item of the innermost list or map as come.
fn count_one(pending: &mut Vec<Option<usize>>)
    requires
        old(pending).len() > 0,
        old(pending)@.last() != Some(0usize),
    ensures
        final(pending).len() == old(pending).len(),
        counts(final(pending)@) == one_less(counts(old(pending)@)),
{
    let last: usize = pending.len() - 1;
    let ghost before = counts(pending@);
    if let Some(count) = pending[last] {
        pending.set(last, Some(count - 1));
        proof {
            assert(counts(pending@) =~= before.update(last as int, Some(count - 1)));
        }
    }
}

} // verus!
