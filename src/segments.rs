//! Segment files are named `<id>.kvs`; this finds their ids in a directory listing.

use vstd::prelude::*;
use vstd::string::StrSliceExecFns;

verus! {

pub open spec fn is_digit(c: char) -> bool {
    '0' <= c <= '9'
}

pub open spec fn all_digits(d: Seq<char>) -> bool {
    forall|i: int| 0 <= i < d.len() ==> is_digit(#[trigger] d[i])
}

/// The number that a string of decimal digits writes.
pub open spec fn digits_value(s: Seq<char>) -> nat
    decreases s.len(),
{
    if s.len() == 0 {
        0
    } else {
        digits_value(s.drop_last()) * 10 + (s.last() as nat - '0' as nat) as nat
    }
}

/// The segment id that a file name gives: the name is `<id>.kvs`, the id an
/// unsigned decimal (with an optional `+`) that fits in 32 bits.
pub open spec fn spec_segment_id(name: Seq<char>) -> Option<u32> {
    let n = name.len() as int;
    if n > 4 && name.subrange(n - 4, n) == seq!['.', 'k', 'v', 's'] {
        let stem = name.subrange(0, n - 4);
        let d = if stem[0] == '+' {
            stem.drop_first()
        } else {
            stem
        };
        if d.len() > 0 && all_digits(d) && digits_value(d) <= u32::MAX {
            Some(digits_value(d) as u32)
        } else {
            None
        }
    } else {
        None
    }
}

proof fn lemma_digits_grow(s: Seq<char>, i: int, j: int)
    requires
        0 <= i <= j <= s.len(),
        forall|k: int| 0 <= k < s.len() ==> is_digit(#[trigger] s[k]),
    ensures
        digits_value(s.subrange(0, i)) <= digits_value(s.subrange(0, j)),
    decreases j - i,
{
    if i < j {
        lemma_digits_grow(s, i, j - 1);
        assert(s.subrange(0, j).drop_last() =~= s.subrange(0, j - 1));
        assert(is_digit(s[j - 1]));
    }
}

proof fn lemma_id_of_digits(name: Seq<char>, start: int)
    requires
        name.len() > 4,
        name.subrange(name.len() - 4, name.len() as int) == seq!['.', 'k', 'v', 's'],
        start == (if name[0] == '+' {
            1int
        } else {
            0int
        }),
    ensures
        ({
            let d = name.subrange(start, name.len() - 4);
            spec_segment_id(name) == if d.len() > 0 && all_digits(d) && digits_value(d)
                <= u32::MAX {
                Some(digits_value(d) as u32)
            } else {
                None
            }
        }),
{
    let stem = name.subrange(0, name.len() - 4);
    assert(stem[0] == name[0]);
    if name[0] == '+' {
        assert(stem.drop_first() =~= name.subrange(1, name.len() - 4));
    } else {
        assert(stem =~= name.subrange(0, name.len() - 4));
    }
}

/// The id of the segment file called `name`, if it is one.
pub fn segment_id(name: &str) -> (r: Option<u32>)
    ensures
        r == spec_segment_id(name@),
{
    let n = name.unicode_len();
    if n <= 4 || name.get_char(n - 4) != '.' || name.get_char(n - 3) != 'k' || name.get_char(
        n - 2,
    ) != 'v' || name.get_char(n - 1) != 's' {
        proof {
            if n > 4 {
                let t = name@.subrange(n - 4, n as int);
                if t == seq!['.', 'k', 'v', 's'] {
                    assert(t[0] == name@[n - 4]);
                    assert(t[1] == name@[n - 3]);
                    assert(t[2] == name@[n - 2]);
                    assert(t[3] == name@[n - 1]);
                }
            }
        }
        return None;
    }
    assert(name@.subrange(n - 4, n as int) =~= seq!['.', 'k', 'v', 's']);
    let start: usize = if name.get_char(0) == '+' {
        1
    } else {
        0
    };
    let ghost d = name@.subrange(start as int, n - 4);
    proof {
        lemma_id_of_digits(name@, start as int);
    }
    if start >= n - 4 {
        return None;
    }
    let mut i: usize = start;
    let mut val: u64 = 0;
    while i < n - 4
        invariant
            n == name@.len(),
            n > 4,
            start <= i <= n - 4,
            d == name@.subrange(start as int, n - 4),
            forall|k: int| 0 <= k < i - start ==> is_digit(#[trigger] d[k]),
            val == digits_value(d.subrange(0, i - start)),
            val <= u32::MAX,
            spec_segment_id(name@) == if d.len() > 0 && all_digits(d) && digits_value(d)
                <= u32::MAX {
                Some(digits_value(d) as u32)
            } else {
                None
            },
        decreases n - 4 - i,
    {
        let c = name.get_char(i);
        assert(c == d[i - start]);
        if c < '0' || c > '9' {
            assert(!is_digit(d[i - start]));
            assert(!all_digits(d));
            return None;
        }
        let dv = (c as u32 - '0' as u32) as u64;
        assert(d.subrange(0, i + 1 - start).drop_last() =~= d.subrange(0, i - start));
        let next = val * 10 + dv;
        if next > 4294967295u64 {
            proof {
                assert forall|k: int| 0 <= k < i + 1 - start implies is_digit(#[trigger] d[k]) by {}
                if all_digits(d) {
                    lemma_digits_grow(d, i + 1 - start, d.len() as int);
                    assert(d.subrange(0, d.len() as int) =~= d);
                }
            }
            return None;
        }
        val = next;
        i = i + 1;
    }
    assert(d.subrange(0, d.len() as int) =~= d);
    Some(val as u32)
}

/// The ids of the segment files among `names`, each once, in ascending order.
pub fn segment_ids(names: &Vec<String>) -> (r: Vec<u32>)
    ensures
        forall|i: int, j: int| 0 <= i < j < r@.len() ==> r@[i] < r@[j],
        forall|id: u32|
            r@.contains(id) <==> exists|i: int|
                0 <= i < names@.len() && spec_segment_id(#[trigger] names@[i]@) == Some(id),
{
    let mut r: Vec<u32> = Vec::new();
    let mut i: usize = 0;
    while i < names.len()
        invariant
            0 <= i <= names@.len(),
            forall|a: int, b: int| 0 <= a < b < r@.len() ==> r@[a] < r@[b],
            forall|id: u32|
                r@.contains(id) <==> exists|j: int|
                    0 <= j < i && spec_segment_id(#[trigger] names@[j]@) == Some(id),
        decreases names.len() - i,
    {
        let ghost before = r@;
        assert(forall|x: u32|
            before.contains(x) <==> exists|j: int|
                0 <= j < i && spec_segment_id(#[trigger] names@[j]@) == Some(x));
        match segment_id(names[i].as_str()) {
            Some(id) => {
                let mut p: usize = 0;
                while p < r.len() && r[p] < id
                    invariant
                        0 <= p <= r@.len(),
                        r@ == before,
                        forall|a: int| 0 <= a < p ==> r@[a] < id,
                    decreases r.len() - p,
                {
                    p = p + 1;
                }
                if p == r.len() || r[p] != id {
                    r.insert(p, id);
                    assert forall|a: int, b: int| 0 <= a < b < r@.len() implies r@[a] < r@[b] by {
                        if b < p {
                            assert(r@[a] == before[a] && r@[b] == before[b]);
                        } else if b == p {
                            assert(r@[a] == before[a]);
                        } else if a < p {
                            assert(r@[a] == before[a] && r@[b] == before[b - 1]);
                            assert(before[p as int] > id);
                            if b - 1 > p {
                                assert(before[p as int] < before[b - 1]);
                            }
                        } else if a == p {
                            assert(r@[b] == before[b - 1]);
                            assert(before[p as int] > id);
                            if b - 1 > p {
                                assert(before[p as int] < before[b - 1]);
                            }
                        } else {
                            assert(r@[a] == before[a - 1] && r@[b] == before[b - 1]);
                        }
                    }
                    assert forall|x: u32| r@.contains(x) <==> (before.contains(x) || x == id) by {
                        if r@.contains(x) {
                            let a = choose|a: int| 0 <= a < r@.len() && r@[a] == x;
                            if a < p {
                                assert(before[a] == x);
                            } else if a > p {
                                assert(before[a - 1] == x);
                            }
                        }
                        if before.contains(x) {
                            let a = choose|a: int| 0 <= a < before.len() && before[a] == x;
                            if a < p {
                                assert(r@[a] == x);
                            } else {
                                assert(r@[a + 1] == x);
                            }
                        }
                        if x == id {
                            assert(r@[p as int] == x);
                        }
                    }
                } else {
                    assert forall|x: u32| r@.contains(x) <==> (before.contains(x) || x == id) by {
                        if x == id {
                            assert(before[p as int] == x);
                        }
                    }
                }
                assert forall|x: u32| r@.contains(x) <==> exists|j: int|
                    0 <= j < i + 1 && spec_segment_id(#[trigger] names@[j]@) == Some(x) by {
                    if x == id {
                        assert(spec_segment_id(names@[i as int]@) == Some(x));
                    } else {
                        if r@.contains(x) {
                            assert(before.contains(x));
                        }
                        if before.contains(x) {
                            let j = choose|j: int|
                                0 <= j < i && spec_segment_id(#[trigger] names@[j]@) == Some(x);
                            assert(0 <= j < i + 1);
                        }
                        if exists|j: int|
                            0 <= j < i + 1 && spec_segment_id(#[trigger] names@[j]@) == Some(x) {
                            let j = choose|j: int|
                                0 <= j < i + 1 && spec_segment_id(#[trigger] names@[j]@) == Some(
                                    x,
                                );
                            assert(j < i);
                        }
                    }
                }
            },
            None => {
                assert forall|x: u32| r@.contains(x) <==> exists|j: int|
                    0 <= j < i + 1 && spec_segment_id(#[trigger] names@[j]@) == Some(x) by {
                    if exists|j: int|
                        0 <= j < i + 1 && spec_segment_id(#[trigger] names@[j]@) == Some(x) {
                        let j = choose|j: int|
                            0 <= j < i + 1 && spec_segment_id(#[trigger] names@[j]@) == Some(x);
                        assert(j < i);
                    }
                }
            },
        }
        i = i + 1;
    }
    r
}

} // verus!
