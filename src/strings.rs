use vstd::prelude::*;
use vstd::string::*;

verus! {

/// `a` sorts strictly before `b`: at the first position where they differ `a`
/// has the smaller character, or `a` is a proper prefix of `b`. On UTF-8 text
/// this is the order of `String`'s `Ord`.
pub open spec fn name_lt(a: Seq<char>, b: Seq<char>) -> bool {
    exists|i: int|
        0 <= i <= a.len() && i <= b.len() && a.take(i) == b.take(i) && ((i == a.len() && i
            < b.len()) || (i < a.len() && i < b.len() && (a[i] as u32) < (b[i] as u32)))
}

/// The entries' names ascend strictly; so no name repeats.
pub open spec fn keys_sorted<V>(list: Seq<(String, V)>) -> bool {
    forall|i: int, j: int| 0 <= i < j < list.len() ==> name_lt(#[trigger] list[i].0@, #[trigger] list[j].0@)
}

/// No string sorts before itself.
pub proof fn lemma_name_lt_irreflexive(a: Seq<char>)
    ensures
        !name_lt(a, a),
{
}

/// Whether `a` sorts strictly before `b`.
pub fn less_than(a: &str, b: &str) -> (r: bool)
    ensures
        r == name_lt(a@, b@),
{
    let la = a.unicode_len();
    let lb = b.unicode_len();
    let mut i: usize = 0;
    while i < la && i < lb && a.get_char(i) == b.get_char(i)
        invariant
            la == a@.len(),
            lb == b@.len(),
            0 <= i <= la,
            i <= lb,
            a@.take(i as int) == b@.take(i as int),
        decreases la - i,
    {
        assert(a@.take(i + 1) =~= a@.take(i as int).push(a@[i as int]));
        assert(b@.take(i + 1) =~= b@.take(i as int).push(b@[i as int]));
        i = i + 1;
    }
    let r = if i == la {
        i < lb
    } else if i == lb {
        false
    } else {
        (a.get_char(i) as u32) < (b.get_char(i) as u32)
    };
    proof {
        if name_lt(a@, b@) {
            let j = choose|j: int|
                0 <= j <= a@.len() && j <= b@.len() && a@.take(j) == b@.take(j) && ((j == a@.len()
                    && j < b@.len()) || (j < a@.len() && j < b@.len() && (a@[j] as u32) < (
                b@[j] as u32)));
            if j < i {
                assert(a@.take(i as int)[j] == a@[j]);
                assert(b@.take(i as int)[j] == b@[j]);
            } else if j > i {
                assert(a@.take(j)[i as int] == a@[i as int]);
                assert(b@.take(j)[i as int] == b@[i as int]);
            }
        }
    }
    r
}

/// Whether the entries' names ascend strictly.
pub fn is_sorted_by_key<V>(list: &Vec<(String, V)>) -> (r: bool)
    ensures
        r == keys_sorted(list@),
{
    let mut j: usize = 0;
    while j < list.len()
        invariant
            0 <= j <= list@.len(),
            forall|a: int, b: int| 0 <= a < b < j ==> name_lt(#[trigger] list@[a].0@, #[trigger] list@[b].0@),
        decreases list@.len() - j,
    {
        let mut i: usize = 0;
        while i < j
            invariant
                0 <= i <= j < list@.len(),
                forall|a: int, b: int| 0 <= a < b < j ==> name_lt(#[trigger] list@[a].0@, #[trigger] list@[b].0@),
                forall|a: int| 0 <= a < i ==> name_lt(#[trigger] list@[a].0@, list@[j as int].0@),
            decreases j - i,
        {
            if !less_than(list[i].0.as_str(), list[j].0.as_str()) {
                return false;
            }
            i = i + 1;
        }
        j = j + 1;
    }
    true
}

/// A copy of a list of strings.
pub fn clone_strings(v: &Vec<String>) -> (r: Vec<String>)
    ensures
        r@ == v@,
{
    let mut r: Vec<String> = Vec::new();
    let mut i: usize = 0;
    while i < v.len()
        invariant
            0 <= i <= v@.len(),
            r@ == v@.take(i as int),
        decreases v@.len() - i,
    {
        r.push(v[i].clone());
        assert(r@ =~= v@.take(i + 1));
        i = i + 1;
    }
    assert(v@.take(v@.len() as int) =~= v@);
    r
}

/// The view of a list of strings.
pub open spec fn string_views(v: Seq<String>) -> Seq<Seq<char>> {
    v.map_values(|s: String| s@)
}

/// `parts` joined with `sep` between each two.
pub open spec fn joined(parts: Seq<Seq<char>>, sep: Seq<char>) -> Seq<char>
    decreases parts.len(),
{
    if parts.len() == 0 {
        Seq::empty()
    } else if parts.len() == 1 {
        parts[0]
    } else {
        joined(parts.drop_last(), sep) + sep + parts.last()
    }
}

/// The parts, in order, with `sep` between each two.
pub fn join_strings(parts: &Vec<String>, sep: &str) -> (r: String)
    ensures
        r@ == joined(string_views(parts@), sep@),
{
    let mut r = String::new();
    let mut i: usize = 0;
    while i < parts.len()
        invariant
            0 <= i <= parts@.len(),
            r@ == joined(string_views(parts@.take(i as int)), sep@),
        decreases parts@.len() - i,
    {
        if i > 0 {
            r.append(sep);
        }
        r.append(parts[i].as_str());
        proof {
            let pre = string_views(parts@.take(i as int));
            let post = string_views(parts@.take(i + 1));
            assert(post =~= pre.push(parts@[i as int]@));
            assert(post.drop_last() =~= pre);
            if i == 0 {
                assert(r@ =~= parts@[0]@);
            }
        }
        i = i + 1;
    }
    assert(parts@.take(parts@.len() as int) =~= parts@);
    r
}

/// A target is a tag when it starts with '@'.
pub open spec fn is_tag(t: Seq<char>) -> bool {
    t.len() > 0 && t[0] == '@'
}

/// The target without its leading '@', if it has one.
pub fn strip_tag(target: &String) -> (r: Option<String>)
    ensures
        match r {
            Some(t) => is_tag(target@) && t@ == target@.drop_first(),
            None => !is_tag(target@),
        },
{
    let s = target.as_str();
    let len = s.unicode_len();
    if len > 0 && s.get_char(0) == '@' {
        let rest = s.substring_char(1, len);
        let t = String::from_str(rest);
        assert(t@ =~= target@.drop_first());
        Some(t)
    } else {
        None
    }
}

} // verus!
