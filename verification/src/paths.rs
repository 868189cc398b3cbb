//! # Paths
//!
//! Paths are carried as text. Two paths are the same when their components are, as
//! `std::path::Path` compares them: both absolute or both relative, and the same pieces
//! between `/` separators, where empty pieces and `.` pieces do not count (but a relative
//! path that starts with a `.` piece keeps it).

use vstd::prelude::*;

verus! {

/// The pieces of `s` between `sep` characters (`str::split`).
pub open spec fn split_on(s: Seq<char>, sep: char) -> Seq<Seq<char>>
    decreases s.len(),
{
    if s.len() == 0 {
        seq![Seq::<char>::empty()]
    } else {
        let p = split_on(s.drop_last(), sep);
        if s.last() == sep {
            p.push(Seq::<char>::empty())
        } else {
            p.update(p.len() - 1, p.last().push(s.last()))
        }
    }
}

/// The pieces that are components: not empty, and not `.` unless `lead_dot` allows the
/// first piece to be one.
pub open spec fn components_of(pieces: Seq<Seq<char>>, lead_dot: bool) -> Seq<Seq<char>>
    decreases pieces.len(),
{
    if pieces.len() == 0 {
        Seq::empty()
    } else {
        let p = pieces[0];
        let rest = components_of(pieces.drop_first(), false);
        if p.len() == 0 || (p == seq!['.'] && !lead_dot) {
            rest
        } else {
            seq![p] + rest
        }
    }
}

/// Whether a path is absolute.
pub open spec fn is_absolute(s: Seq<char>) -> bool {
    s.len() > 0 && s[0] == '/'
}

/// The comparable form of a path: whether it is absolute, and its components.
pub open spec fn path_model(s: Seq<char>) -> (bool, Seq<Seq<char>>) {
    (is_absolute(s), components_of(split_on(s, '/'), !is_absolute(s)))
}

/// The character sequences of a vector of character vectors.
pub open spec fn char_rows(v: Seq<Vec<char>>) -> Seq<Seq<char>> {
    Seq::new(v.len(), |i: int| v[i]@)
}

/// The pieces of `s` between `sep` characters.
fn split_on_exec(s: &Vec<char>, sep: char) -> (r: Vec<Vec<char>>)
    ensures
        char_rows(r@) == split_on(s@, sep),
{
    let mut pieces: Vec<Vec<char>> = Vec::new();
    let mut cur: Vec<char> = Vec::new();
    for i in 0..s.len()
        invariant
            char_rows(pieces@).push(cur@) == split_on(s@.subrange(0, i as int), sep),
    {
        let ghost pre = s@.subrange(0, i as int);
        assert(s@.subrange(0, i + 1).drop_last() =~= pre);
        assert(s@.subrange(0, i + 1).last() == s@[i as int]);
        let ghost old_pieces = char_rows(pieces@);
        let ghost old_cur = cur@;
        if s[i] == sep {
            pieces.push(cur);
            cur = Vec::new();
            assert(char_rows(pieces@).push(cur@) =~= old_pieces.push(old_cur).push(Seq::<char>::empty()));
        } else {
            cur.push(s[i]);
            assert(char_rows(pieces@).push(cur@) =~= old_pieces.push(old_cur).update(
                old_pieces.len() as int, old_cur.push(s@[i as int])));
        }
    }
    assert(s@.subrange(0, s@.len() as int) =~= s@);
    let ghost old_pieces = char_rows(pieces@);
    pieces.push(cur);
    assert(char_rows(pieces@) =~= old_pieces.push(cur@));
    pieces
}

/// The components of a path (see `path_model`).
fn components_exec(s: &String) -> (r: (bool, Vec<Vec<char>>))
    ensures
        (r.0, char_rows(r.1@)) == path_model(s@),
{
    let v = crate::text::chars_of(s.as_str());
    let absolute = v.len() > 0 && v[0] == '/';
    let pieces = split_on_exec(&v, '/');
    let ghost all = char_rows(pieces@);
    let mut kept: Vec<Vec<char>> = Vec::new();
    let n = pieces.len();
    assert(all.skip(0) =~= all);
    assert(char_rows(kept@) =~= Seq::<Seq<char>>::empty());
    for i in 0..n
        invariant
            n == pieces@.len(),
            all == char_rows(pieces@),
            char_rows(kept@) + components_of(all.skip(i as int), i == 0 && !absolute) == components_of(all, !absolute),
    {
        let ghost k0 = char_rows(kept@);
        let ghost rest = all.skip(i as int);
        assert(rest.drop_first() =~= all.skip(i + 1));
        assert(rest[0] == pieces@[i as int]@);
        let p = &pieces[i];
        let is_dot = p.len() == 1 && p[0] == '.';
        assert(is_dot == (p@ == seq!['.'])) by {
            if p@.len() == 1 && p@[0] == '.' {
                assert(p@ =~= seq!['.']);
            }
        }
        if p.len() == 0 || (is_dot && !(i == 0 && !absolute)) {
            assert(components_of(rest, i == 0 && !absolute) == components_of(all.skip(i + 1), false));
        } else {
            kept.push(pieces[i].clone());
            assert(char_rows(kept@) =~= k0.push(p@));
            assert(char_rows(kept@) + components_of(all.skip(i + 1), false) =~= k0 + (seq![p@] + components_of(all.skip(i + 1), false)));
        }
    }
    assert(all.skip(n as int) =~= Seq::<Seq<char>>::empty());
    assert(char_rows(kept@) + Seq::<Seq<char>>::empty() =~= char_rows(kept@));
    (absolute, kept)
}

/// Whether two character vectors hold the same characters.
fn same_chars(a: &Vec<char>, b: &Vec<char>) -> (r: bool)
    ensures
        r == (a@ == b@),
{
    if a.len() != b.len() {
        return false;
    }
    for i in 0..a.len()
        invariant
            a@.len() == b@.len(),
            forall|j: int| 0 <= j < i ==> a@[j] == b@[j],
    {
        if a[i] != b[i] {
            return false;
        }
    }
    assert(a@ =~= b@);
    true
}

/// Whether two paths are the same path (see `path_model`).
pub fn same_path(a: &String, b: &String) -> (r: bool)
    ensures
        r == (path_model(a@) == path_model(b@)),
{
    let (abs_a, ca) = components_exec(a);
    let (abs_b, cb) = components_exec(b);
    if abs_a != abs_b || ca.len() != cb.len() {
        assert(char_rows(ca@).len() == ca@.len());
        return false;
    }
    for i in 0..ca.len()
        invariant
            ca@.len() == cb@.len(),
            char_rows(ca@) == path_model(a@).1,
            char_rows(cb@) == path_model(b@).1,
            forall|j: int| 0 <= j < i ==> ca@[j]@ == cb@[j]@,
    {
        if !same_chars(&ca[i], &cb[i]) {
            assert(char_rows(ca@)[i as int] != char_rows(cb@)[i as int]);
            assert(path_model(a@).1 != path_model(b@).1);
            return false;
        }
    }
    assert(char_rows(ca@) =~= char_rows(cb@));
    true
}

/// An empty last piece is no component.
proof fn lemma_components_push_empty(pieces: Seq<Seq<char>>, lead_dot: bool)
    ensures
        components_of(pieces.push(Seq::<char>::empty()), lead_dot) == components_of(pieces, lead_dot),
    decreases pieces.len(),
{
    let e = Seq::<char>::empty();
    if pieces.len() == 0 {
        assert(pieces.push(e).drop_first() =~= Seq::<Seq<char>>::empty());
        assert(pieces.push(e)[0] == e);
        assert(components_of(Seq::<Seq<char>>::empty(), false) == Seq::<Seq<char>>::empty());
        assert(components_of(pieces, lead_dot) == Seq::<Seq<char>>::empty());
    } else {
        assert(pieces.push(e).drop_first() =~= pieces.drop_first().push(e));
        assert(pieces.push(e)[0] == pieces[0]);
        lemma_components_push_empty(pieces.drop_first(), false);
    }
}

/// Law: a trailing separator does not change a path: `a/b/` is the same path as `a/b`.
pub proof fn law_trailing_separator_is_ignored(s: Seq<char>)
    requires
        s.len() > 0,
    ensures
        path_model(s.push('/')) == path_model(s),
{
    assert(s.push('/').drop_last() =~= s);
    assert(split_on(s.push('/'), '/') == split_on(s, '/').push(Seq::<char>::empty()));
    lemma_components_push_empty(split_on(s, '/'), !is_absolute(s));
    assert(is_absolute(s.push('/')) == is_absolute(s));
}

} // verus!
