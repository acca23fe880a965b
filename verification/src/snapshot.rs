//! Naming of snapshot files (`snapshot_<index>.bin`) and the choice of the
//! latest one.
use vstd::prelude::*;
use vstd::string::StringExecFns;
use crate::text::{decimal, lemma_parse_decimal, parse_unsigned, parse_unsigned_chars, push_decimal, str_chars, text_chars};

verus! {

broadcast use vstd::string::group_string_axioms;

/// The file name of the snapshot taken at `index`.
pub open spec fn snapshot_name(index: u64) -> Seq<char> {
    "snapshot_"@ + decimal(index as nat) + ".bin"@
}

pub fn snapshot_file_name(index: u64) -> (r: String)
    ensures
        r@ == snapshot_name(index),
{
    let mut s = "snapshot_".to_string();
    push_decimal(&mut s, index);
    s.append(".bin");
    s
}

/// The index a snapshot file name carries: a name that starts with
/// `snapshot_` and ends with `.bin` around an unsigned decimal number.
pub open spec fn snapshot_index_of(name: Seq<char>) -> Option<u64> {
    if name.len() >= 9 && name.take(9) == "snapshot_"@ && name.len() >= 4 && name.skip(
        name.len() - 4,
    ) == ".bin"@ {
        match parse_unsigned(name.subrange(9, name.len() - 4), u64::MAX as nat) {
            Ok(v) => Some(v as u64),
            Err(_) => None,
        }
    } else {
        None
    }
}

/// A snapshot's file name gives back its index.
pub proof fn law_snapshot_name_round_trip(index: u64)
    ensures
        snapshot_index_of(snapshot_name(index)) == Some(index),
{
    reveal_strlit("snapshot_");
    reveal_strlit(".bin");
    let d = decimal(index as nat);
    let name = snapshot_name(index);
    lemma_parse_decimal(index as nat, u64::MAX as nat);
    assert(name.take(9) =~= "snapshot_"@);
    assert(name.skip(name.len() - 4) =~= ".bin"@);
    assert(name.subrange(9, name.len() - 4) =~= d);
    assert(d[0] != '+');
}

/// The index in a snapshot file name, or `None` for another name.
pub fn parse_snapshot_file_name(name: &str) -> (r: Option<u64>)
    ensures
        r == snapshot_index_of(name@),
{
    proof {
        reveal_strlit("snapshot_");
        reveal_strlit(".bin");
    }
    let chars = text_chars(name);
    let prefix = str_chars("snapshot_");
    let suffix = str_chars(".bin");
    let n = chars.len();
    if n < 9 || n < 4 {
        return None;
    }
    let mut i: usize = 0;
    while i < 9
        invariant
            9 <= n == chars.len(),
            prefix@ == "snapshot_"@,
            prefix@.len() == 9,
            chars@ == name@,
            i <= 9,
            forall|j: int| 0 <= j < i ==> chars@[j] == prefix@[j],
        decreases 9 - i,
    {
        if chars[i] != prefix[i] {
            assert(chars@.take(9)[i as int] != "snapshot_"@[i as int]);
            return None;
        }
        i = i + 1;
    }
    assert(chars@.take(9) =~= "snapshot_"@);
    let mut k: usize = 0;
    while k < 4
        invariant
            9 <= n == chars.len(),
            suffix@ == ".bin"@,
            suffix@.len() == 4,
            chars@ == name@,
            chars@.take(9) == "snapshot_"@,
            k <= 4,
            forall|j: int| 0 <= j < k ==> chars@[n - 4 + j] == suffix@[j],
        decreases 4 - k,
    {
        if chars[n - 4 + k] != suffix[k] {
            assert(chars@.skip(n - 4)[k as int] != ".bin"@[k as int]);
            return None;
        }
        k = k + 1;
    }
    assert(chars@.skip(n - 4) =~= ".bin"@);
    if n < 13 {
        // The `.` of the suffix would fall inside the prefix, which has none.
        proof {
            reveal_strlit("snapshot_");
            reveal_strlit(".bin");
            assert(chars@.skip(n - 4)[0] == chars@[n - 4]);
            assert(chars@[n - 4] == '.');
            assert(chars@.take(9)[n - 4] == chars@[n - 4]);
            assert(false);
        }
        return None;
    }
    let mut middle: Vec<char> = Vec::new();
    let mut m: usize = 9;
    while m < n - 4
        invariant
            13 <= n == chars.len(),
            9 <= m <= n - 4,
            middle@ == chars@.subrange(9, m as int),
        decreases n - 4 - m,
    {
        middle.push(chars[m]);
        m = m + 1;
        assert(middle@ =~= chars@.subrange(9, m as int));
    }
    match parse_unsigned_chars(&middle, u64::MAX) {
        Ok(v) => Some(v),
        Err(_) => None,
    }
}

/// Whether position `p` holds the latest snapshot among `names`, with
/// index `b`: a snapshot name with a positive index, none of the names with
/// a larger index, and none before it with the same.
pub open spec fn is_latest_snapshot(names: Seq<Seq<char>>, p: int, b: u64) -> bool {
    &&& 0 <= p < names.len()
    &&& snapshot_index_of(names[p]) == Some(b)
    &&& b > 0
    &&& forall|i: int|
        0 <= i < names.len() && (#[trigger] snapshot_index_of(names[i])) is Some ==> snapshot_index_of(
            names[i],
        )->0 <= b
    &&& forall|i: int|
        0 <= i < p && (#[trigger] snapshot_index_of(names[i])) is Some ==> snapshot_index_of(
            names[i],
        )->0 < b
}

/// Whether some name is that of a snapshot with a positive index.
pub open spec fn has_snapshot(names: Seq<Seq<char>>) -> bool {
    exists|i: int|
        0 <= i < names.len() && (#[trigger] snapshot_index_of(names[i])) is Some
            && snapshot_index_of(names[i])->0 > 0
}

/// The position and index of the latest snapshot among directory entry
/// names (the first of equal ones), or `None` when none has a positive
/// index.
pub fn pick_latest_snapshot(names: &Vec<String>) -> (r: Option<(usize, u64)>)
    ensures
        match r {
            Some((p, b)) => is_latest_snapshot(names@.map_values(|s: String| s@), p as int, b),
            None => !has_snapshot(names@.map_values(|s: String| s@)),
        },
{
    let ghost nv = names@.map_values(|s: String| s@);
    let mut best: u64 = 0;
    let mut pos: Option<usize> = None;
    let mut i: usize = 0;
    while i < names.len()
        invariant
            i <= names.len(),
            nv == names@.map_values(|s: String| s@),
            match pos {
                Some(p) => {
                    &&& p < i
                    &&& snapshot_index_of(nv[p as int]) == Some(best)
                    &&& best > 0
                    &&& forall|j: int|
                        0 <= j < i && (#[trigger] snapshot_index_of(nv[j])) is Some
                            ==> snapshot_index_of(nv[j])->0 <= best
                    &&& forall|j: int|
                        0 <= j < p && (#[trigger] snapshot_index_of(nv[j])) is Some
                            ==> snapshot_index_of(nv[j])->0 < best
                },
                None => best == 0 && forall|j: int|
                    0 <= j < i && (#[trigger] snapshot_index_of(nv[j])) is Some
                        ==> snapshot_index_of(nv[j])->0 == 0,
            },
        decreases names.len() - i,
    {
        assert(nv[i as int] == names@[i as int]@);
        match parse_snapshot_file_name(names[i].as_str()) {
            Some(idx) => {
                if idx > best {
                    best = idx;
                    pos = Some(i);
                }
            },
            None => {},
        }
        i = i + 1;
    }
    match pos {
        Some(p) => Some((p, best)),
        None => None,
    }
}

} // verus!
