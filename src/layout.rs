//! The data directory: segment files are named `<id>.db`, with `<id>` a
//! decimal integer; any other file is ignored.
use crate::store::ascending;
use vstd::prelude::*;

verus! {

/// Whether `c` is an ASCII decimal digit.
pub open spec fn is_digit(c: char) -> bool {
    '0' <= c <= '9'
}

/// The number that the decimal digits `s` write.
pub open spec fn digits_value(s: Seq<char>) -> nat
    decreases s.len(),
{
    if s.len() == 0 {
        0
    } else {
        digits_value(s.drop_last()) * 10 + (s.last() as nat - '0' as nat) as nat
    }
}

/// The number written by `s` when `s` is a non-empty run of decimal digits
/// whose value fits in a `u64`.
pub open spec fn decimal_of(s: Seq<char>) -> Option<u64> {
    if s.len() > 0 && (forall|i: int| 0 <= i < s.len() ==> is_digit(#[trigger] s[i])) && digits_value(s)
        <= u64::MAX {
        Some(digits_value(s) as u64)
    } else {
        None
    }
}

proof fn lemma_digits_value_grows(s: Seq<char>, i: int)
    requires
        0 <= i <= s.len(),
        forall|j: int| 0 <= j < s.len() ==> is_digit(#[trigger] s[j]),
    ensures
        digits_value(s.subrange(0, i)) <= digits_value(s),
    decreases s.len() - i,
{
    if i < s.len() {
        lemma_digits_value_grows(s, i + 1);
        assert(s.subrange(0, i + 1).drop_last() =~= s.subrange(0, i));
    } else {
        assert(s.subrange(0, i) =~= s);
    }
}

/// Reads the decimal number written by the characters `from..to` of `s`.
pub fn parse_decimal(s: &str, from: usize, to: usize) -> (r: Option<u64>)
    requires
        from <= to <= s@.len(),
    ensures
        r == decimal_of(s@.subrange(from as int, to as int)),
{
    let ghost t = s@.subrange(from as int, to as int);
    if from == to {
        return None;
    }
    let mut v: u64 = 0;
    let mut i: usize = from;
    while i < to
        invariant
            from <= i <= to <= s@.len(),
            t == s@.subrange(from as int, to as int),
            forall|j: int| 0 <= j < i - from ==> is_digit(#[trigger] t[j]),
            v == digits_value(t.subrange(0, i - from)),
        decreases to - i,
    {
        let c = s.get_char(i);
        if !('0' <= c && c <= '9') {
            assert(!is_digit(t[i - from]));
            return None;
        }
        let d = (c as u32 - '0' as u32) as u64;
        assert(t.subrange(0, i - from + 1).drop_last() =~= t.subrange(0, i - from));
        let next = match v.checked_mul(10) {
            Some(m) => m.checked_add(d),
            None => None,
        };
        match next {
            Some(n) => {
                v = n;
            },
            None => {
                proof {
                    if forall|j: int| 0 <= j < t.len() ==> is_digit(#[trigger] t[j]) {
                        lemma_digits_value_grows(t, i - from + 1);
                    }
                }
                return None;
            },
        }
        i += 1;
    }
    assert(t.subrange(0, to - from) =~= t);
    Some(v)
}

/// The segment id that the file name `name` gives, if it is `<id>.db`.
pub open spec fn segment_id_of_name(name: Seq<char>) -> Option<u64> {
    if name.len() >= 3 && name.subrange(name.len() - 3, name.len() as int) == ".db"@ {
        decimal_of(name.subrange(0, name.len() - 3))
    } else {
        None
    }
}

/// The segment id that a file name gives: `Some(id)` for `<id>.db`.
pub fn segment_id_of(name: &str) -> (r: Option<u64>)
    ensures
        r == segment_id_of_name(name@),
{
    proof {
        reveal_strlit(".db");
    }
    let n = name.unicode_len();
    if n < 3 {
        return None;
    }
    let tail = name.substring_char(n - 3, n);
    if tail.to_owned() != ".db".to_owned() {
        return None;
    }
    parse_decimal(name, 0, n - 3)
}

/// Puts `x` into the ascending `v`, unless it is there already.
fn insert_sorted(v: &mut Vec<u64>, x: u64)
    requires
        ascending(old(v)@),
    ensures
        ascending(final(v)@),
        forall|y: u64| final(v)@.contains(y) <==> old(v)@.contains(y) || y == x,
{
    let mut i: usize = 0;
    while i < v.len() && v[i] < x
        invariant
            i <= v@.len(),
            v@ == old(v)@,
            forall|j: int| 0 <= j < i ==> v@[j] < x,
        decreases v@.len() - i,
    {
        i += 1;
    }
    if i < v.len() && v[i] == x {
        return;
    }
    v.insert(i, x);
    assert forall|y: u64| v@.contains(y) <==> old(v)@.contains(y) || y == x by {
        if old(v)@.contains(y) {
            let j = choose|j: int| 0 <= j < old(v)@.len() && old(v)@[j] == y;
            if j < i {
                assert(v@[j] == y);
            } else {
                assert(v@[j + 1] == y);
            }
        }
        if v@.contains(y) && y != x {
            let j = choose|j: int| 0 <= j < v@.len() && v@[j] == y;
            if j < i {
                assert(old(v)@[j] == y);
            } else {
                assert(old(v)@[j - 1] == y);
            }
        }
        if y == x {
            assert(v@[i as int] == x);
        }
    }
}

/// The segment ids that a directory listing gives, ascending and without
/// repeats; names that are not `<id>.db` are left out.
pub fn segment_ids(names: &Vec<String>) -> (r: Vec<u64>)
    ensures
        ascending(r@),
        forall|id: u64| r@.contains(id) <==> exists|i: int|
            0 <= i < names@.len() && segment_id_of_name(#[trigger] names@[i]@) == Some(id),
{
    let mut ids: Vec<u64> = Vec::new();
    let mut i: usize = 0;
    while i < names.len()
        invariant
            i <= names@.len(),
            ascending(ids@),
            forall|id: u64| ids@.contains(id) <==> exists|j: int|
                0 <= j < i && segment_id_of_name(#[trigger] names@[j]@) == Some(id),
        decreases names@.len() - i,
    {
        let found = segment_id_of(names[i].as_str());
        if let Some(id) = found {
            insert_sorted(&mut ids, id);
        }
        i += 1;
        assert forall|id: u64| ids@.contains(id) <==> exists|j: int|
            0 <= j < i && segment_id_of_name(#[trigger] names@[j]@) == Some(id) by {
            if exists|j: int| 0 <= j < i && segment_id_of_name(#[trigger] names@[j]@) == Some(id) {
                let j = choose|j: int| 0 <= j < i && segment_id_of_name(#[trigger] names@[j]@) == Some(id);
                if j < i - 1 {
                } else {
                    assert(found == Some(id));
                }
            }
        }
    }
    ids
}

} // verus!
