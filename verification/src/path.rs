//! Path parsing helpers for FAT32 volumes.
use vstd::prelude::*;

verus! {

/// The texts of a sequence of strings.
pub open spec fn texts(v: Seq<String>) -> Seq<Seq<char>> {
    v.map_values(|s: String| s@)
}

/// The pieces of `s` between its '/' characters, as `str::split('/')` yields them.
pub open spec fn split_on_slash(s: Seq<char>) -> Seq<Seq<char>>
    decreases s.len(),
{
    if s.len() == 0 {
        seq![Seq::<char>::empty()]
    } else {
        let rest = split_on_slash(s.drop_last());
        if s.last() == '/' {
            rest.push(Seq::<char>::empty())
        } else {
            rest.update(rest.len() - 1, rest.last().push(s.last()))
        }
    }
}

/// One piece of a path applied to the components kept so far: empty pieces
/// and "." are skipped, ".." drops the last kept component, anything else is kept.
pub open spec fn apply_piece(kept: Seq<Seq<char>>, piece: Seq<char>) -> Seq<Seq<char>> {
    if piece.len() == 0 || piece == seq!['.'] {
        kept
    } else if piece == seq!['.', '.'] {
        if kept.len() > 0 {
            kept.drop_last()
        } else {
            kept
        }
    } else {
        kept.push(piece)
    }
}

/// The components kept from a sequence of pieces, applied in order.
pub open spec fn normalize_pieces(pieces: Seq<Seq<char>>) -> Seq<Seq<char>>
    decreases pieces.len(),
{
    if pieces.len() == 0 {
        Seq::empty()
    } else {
        apply_piece(normalize_pieces(pieces.drop_last()), pieces.last())
    }
}

/// Whether a path is absolute.
pub open spec fn is_absolute(path: Seq<char>) -> bool {
    path.len() > 0 && path[0] == '/'
}

/// The normalized components of a path.
pub open spec fn path_components(path: Seq<char>) -> Seq<Seq<char>> {
    normalize_pieces(split_on_slash(path))
}

/// Each name of `cs` preceded by '/', all joined; empty for no names.
pub open spec fn slash_joined(cs: Seq<Seq<char>>) -> Seq<char>
    decreases cs.len(),
{
    if cs.len() == 0 {
        Seq::empty()
    } else {
        slash_joined(cs.drop_last()) + seq!['/'] + cs.last()
    }
}

/// Whether `c` can be a normalized component: not empty, not "." or "..",
/// and free of '/'.
pub open spec fn is_plain_component(c: Seq<char>) -> bool {
    &&& c.len() > 0
    &&& c != seq!['.']
    &&& c != seq!['.', '.']
    &&& !c.contains('/')
}

/// Applies the piece `path[start..end]` (in characters) to `components`.
fn push_piece(
    path: &str,
    start: usize,
    end: usize,
    components: &mut Vec<String>,
    done: Ghost<Seq<Seq<char>>>,
)
    requires
        start <= end <= path@.len(),
        texts(old(components)@) == normalize_pieces(done@),
    ensures
        texts(final(components)@) == normalize_pieces(
            done@.push(path@.subrange(start as int, end as int)),
        ),
{
    let piece = path.substring_char(start, end);
    let plen = end - start;
    let ghost kept = normalize_pieces(done@);
    proof {
        let cur = path@.subrange(start as int, end as int);
        assert(normalize_pieces(done@.push(cur)) == apply_piece(kept, cur)) by {
            assert(done@.push(cur).drop_last() =~= done@);
        }
    }
    if plen == 0 || (plen == 1 && piece.get_char(0) == '.') {
        proof {
            if plen == 1 {
                assert(piece@ =~= seq!['.']);
            }
        }
    } else if plen == 2 && piece.get_char(0) == '.' && piece.get_char(1) == '.' {
        assert(piece@ =~= seq!['.', '.']);
        if components.len() > 0 {
            components.pop();
            assert(texts(components@) =~= kept.drop_last());
        }
    } else {
        proof {
            if plen == 1 {
                assert(piece@ != seq!['.']) by {
                    assert(piece@[0] != seq!['.'][0]);
                }
            }
            if plen == 2 {
                assert(piece@ != seq!['.', '.']) by {
                    if piece@ == seq!['.', '.'] {
                        assert(piece@[0] == '.' && piece@[1] == '.');
                    }
                }
            }
        }
        components.push(String::from_str(piece));
        assert(texts(components@) =~= kept.push(piece@));
    }
}

/// Break a path into normalized components.
/// Supports absolute (starting with `/`) and relative paths.
pub fn normalize_path(path: &str) -> (r: (bool, Vec<String>))
    ensures
        r.0 == is_absolute(path@),
        texts(r.1@) == path_components(path@),
{
    let n = path.unicode_len();
    let is_abs = n > 0 && path.get_char(0) == '/';
    let mut components: Vec<String> = Vec::new();
    let ghost mut done: Seq<Seq<char>> = Seq::empty();
    let mut start: usize = 0;
    let mut i: usize = 0;
    assert(path@.subrange(0, 0) =~= Seq::<char>::empty());
    while i < n
        invariant
            n == path@.len(),
            start <= i <= n,
            split_on_slash(path@.subrange(0, i as int)) == done.push(
                path@.subrange(start as int, i as int),
            ),
            texts(components@) == normalize_pieces(done),
        decreases n - i,
    {
        let c = path.get_char(i);
        proof {
            let s = path@.subrange(0, i + 1);
            assert(s.drop_last() =~= path@.subrange(0, i as int));
            assert(s.last() == c);
        }
        if c != '/' {
            assert(path@.subrange(start as int, i + 1) =~= path@.subrange(
                start as int,
                i as int,
            ).push(c));
        } else {
            let ghost cur = path@.subrange(start as int, i as int);
            push_piece(path, start, i, &mut components, Ghost(done));
            proof {
                assert(path@.subrange(i + 1, i + 1) =~= Seq::<char>::empty());
                done = done.push(cur);
            }
            start = i + 1;
        }
        i = i + 1;
    }
    assert(path@.subrange(0, n as int) =~= path@);
    push_piece(path, start, n, &mut components, Ghost(done));
    (is_abs, components)
}

/// No piece of a split contains '/'.
proof fn lemma_split_has_no_slash(s: Seq<char>)
    ensures
        forall|k: int| 0 <= k < split_on_slash(s).len() ==> !(#[trigger] split_on_slash(s)[k]).contains('/'),
        split_on_slash(s).len() >= 1,
    decreases s.len(),
{
    if s.len() > 0 {
        lemma_split_has_no_slash(s.drop_last());
        let rest = split_on_slash(s.drop_last());
        if s.last() != '/' {
            let last = rest.last().push(s.last());
            assert forall|k: int| 0 <= k < split_on_slash(s).len() implies !(#[trigger] split_on_slash(s)[k]).contains('/') by {
                if k == rest.len() - 1 {
                    assert(split_on_slash(s)[k] == last);
                    if last.contains('/') {
                        let m = choose|m: int| 0 <= m < last.len() && last[m] == '/';
                        if m < rest.last().len() {
                            assert(rest.last()[m] == '/');
                            assert(rest[rest.len() - 1].contains('/'));
                        }
                    }
                } else {
                    assert(split_on_slash(s)[k] == rest[k]);
                }
            }
        } else {
            assert forall|k: int| 0 <= k < split_on_slash(s).len() implies !(#[trigger] split_on_slash(s)[k]).contains('/') by {
                if k < rest.len() {
                    assert(split_on_slash(s)[k] == rest[k]);
                } else {
                    assert(split_on_slash(s)[k] == Seq::<char>::empty());
                }
            }
        }
    }
}

/// Normalizing pieces free of '/' keeps only plain components.
proof fn lemma_normalize_keeps_plain(pieces: Seq<Seq<char>>)
    requires
        forall|k: int| 0 <= k < pieces.len() ==> !(#[trigger] pieces[k]).contains('/'),
    ensures
        forall|k: int| 0 <= k < normalize_pieces(pieces).len() ==> is_plain_component(
            #[trigger] normalize_pieces(pieces)[k],
        ),
    decreases pieces.len(),
{
    if pieces.len() > 0 {
        let d = pieces.drop_last();
        assert forall|k: int| 0 <= k < d.len() implies !(#[trigger] d[k]).contains('/') by {
            assert(d[k] == pieces[k]);
        }
        lemma_normalize_keeps_plain(d);
        let kept = normalize_pieces(d);
        let piece = pieces.last();
        assert(!pieces[pieces.len() - 1].contains('/'));
        let r = normalize_pieces(pieces);
        assert forall|k: int| 0 <= k < r.len() implies is_plain_component(#[trigger] r[k]) by {
            if piece.len() == 0 || piece == seq!['.'] {
            } else if piece == seq!['.', '.'] {
                if kept.len() > 0 {
                    assert(r[k] == kept[k]);
                }
            } else {
                if k < kept.len() {
                    assert(r[k] == kept[k]);
                } else {
                    assert(r[k] == piece);
                }
            }
        }
    }
}

/// Every normalized component of a path is plain: not empty, not "." or
/// "..", and free of '/'.
pub proof fn lemma_components_are_plain(path: Seq<char>)
    ensures
        forall|k: int| 0 <= k < path_components(path).len() ==> is_plain_component(
            #[trigger] path_components(path)[k],
        ),
{
    lemma_split_has_no_slash(path);
    lemma_normalize_keeps_plain(split_on_slash(path));
}

/// The path "." has no components and is relative.
pub(crate) proof fn lemma_dot_path(path: Seq<char>)
    requires
        path == seq!['.'],
    ensures
        path_components(path) == Seq::<Seq<char>>::empty(),
        !is_absolute(path),
{
    assert(path.drop_last() =~= Seq::<char>::empty());
    let rest = split_on_slash(path.drop_last());
    assert(rest == seq![Seq::<char>::empty()]);
    assert(split_on_slash(path) =~= seq![seq!['.']]);
    let pieces = split_on_slash(path);
    assert(pieces.drop_last() =~= Seq::<Seq<char>>::empty());
    assert(pieces.last() == seq!['.']);
    assert(normalize_pieces(pieces.drop_last()) == Seq::<Seq<char>>::empty());
    assert(apply_piece(Seq::<Seq<char>>::empty(), seq!['.']) == Seq::<Seq<char>>::empty());
}

/// The path "/" has no components and is absolute.
pub(crate) proof fn lemma_root_path(path: Seq<char>)
    requires
        path == seq!['/'],
    ensures
        path_components(path) == Seq::<Seq<char>>::empty(),
        is_absolute(path),
{
    assert(path.drop_last() =~= Seq::<char>::empty());
    assert(path.last() == '/');
    assert(split_on_slash(path.drop_last()) == seq![Seq::<char>::empty()]);
    assert(split_on_slash(path) =~= seq![Seq::<char>::empty(), Seq::<char>::empty()]);
    let pieces = split_on_slash(path);
    assert(pieces.drop_last() =~= seq![Seq::<char>::empty()]);
    assert(pieces.drop_last().drop_last() =~= Seq::<Seq<char>>::empty());
    assert(normalize_pieces(pieces.drop_last().drop_last()) == Seq::<Seq<char>>::empty());
    assert(normalize_pieces(pieces.drop_last()) == Seq::<Seq<char>>::empty());
}

/// Splitting `s`, then '/', then a piece free of '/' gives the pieces of `s`
/// and that piece.
proof fn lemma_split_append_piece(s: Seq<char>, c: Seq<char>)
    requires
        !c.contains('/'),
    ensures
        split_on_slash(s + seq!['/'] + c) == split_on_slash(s).push(c),
    decreases c.len(),
{
    let t = s + seq!['/'] + c;
    if c.len() == 0 {
        assert(t =~= s.push('/'));
        assert(t.drop_last() =~= s);
        assert(t.last() == '/');
        assert(c =~= Seq::<char>::empty());
        assert(split_on_slash(t) == split_on_slash(t.drop_last()).push(Seq::<char>::empty()));
    } else {
        let d = c.drop_last();
        assert(!d.contains('/')) by {
            if d.contains('/') {
                let m = choose|m: int| 0 <= m < d.len() && d[m] == '/';
                assert(c[m] == '/');
            }
        }
        lemma_split_append_piece(s, d);
        assert(t.drop_last() =~= s + seq!['/'] + d);
        assert(t.last() == c.last());
        assert(c.last() != '/') by {
            assert(c[c.len() - 1] == c.last());
        }
        let rest = split_on_slash(s).push(d);
        assert(split_on_slash(t.drop_last()) == rest);
        assert(split_on_slash(t) == rest.update(rest.len() - 1, rest.last().push(t.last())));
        assert(rest.update(rest.len() - 1, rest.last().push(c.last())) =~= split_on_slash(s).push(
            c,
        )) by {
            assert(d.push(c.last()) =~= c);
        }
    }
}

/// The pieces of '/'-joined names free of '/' are an empty piece, then the names.
proof fn lemma_split_joined(cs: Seq<Seq<char>>)
    requires
        forall|k: int| 0 <= k < cs.len() ==> !(#[trigger] cs[k]).contains('/'),
    ensures
        split_on_slash(slash_joined(cs)) == seq![Seq::<char>::empty()] + cs,
    decreases cs.len(),
{
    if cs.len() == 0 {
        assert(seq![Seq::<char>::empty()] + cs =~= seq![Seq::<char>::empty()]);
    } else {
        let d = cs.drop_last();
        assert forall|k: int| 0 <= k < d.len() implies !(#[trigger] d[k]).contains('/') by {
            assert(d[k] == cs[k]);
        }
        lemma_split_joined(d);
        assert(!cs[cs.len() - 1].contains('/'));
        lemma_split_append_piece(slash_joined(d), cs.last());
        assert((seq![Seq::<char>::empty()] + d).push(cs.last()) =~= seq![Seq::<char>::empty()]
            + cs);
    }
}

/// Normalizing an empty piece followed by plain components keeps them all.
proof fn lemma_normalize_plain(cs: Seq<Seq<char>>)
    requires
        forall|k: int| 0 <= k < cs.len() ==> is_plain_component(#[trigger] cs[k]),
    ensures
        normalize_pieces(seq![Seq::<char>::empty()] + cs) == cs,
    decreases cs.len(),
{
    let p = seq![Seq::<char>::empty()] + cs;
    if cs.len() == 0 {
        assert(p.drop_last() =~= Seq::<Seq<char>>::empty());
        assert(p.last() == Seq::<char>::empty());
        assert(normalize_pieces(p.drop_last()) == Seq::<Seq<char>>::empty());
        assert(normalize_pieces(p) == apply_piece(Seq::<Seq<char>>::empty(), Seq::<char>::empty()));
        assert(cs =~= Seq::<Seq<char>>::empty());
    } else {
        let d = cs.drop_last();
        assert forall|k: int| 0 <= k < d.len() implies is_plain_component(#[trigger] d[k]) by {
            assert(d[k] == cs[k]);
        }
        lemma_normalize_plain(d);
        assert(p.drop_last() =~= seq![Seq::<char>::empty()] + d);
        assert(p.last() == cs.last());
        assert(is_plain_component(cs[cs.len() - 1]));
        assert(normalize_pieces(p) == apply_piece(normalize_pieces(p.drop_last()), p.last()));
        assert(apply_piece(d, cs.last()) == d.push(cs.last()));
        assert(d.push(cs.last()) =~= cs);
    }
}

/// Splitting a text free of '/' gives the text itself as its only piece.
proof fn lemma_split_no_slash(c: Seq<char>)
    requires
        !c.contains('/'),
    ensures
        split_on_slash(c) == seq![c],
    decreases c.len(),
{
    if c.len() == 0 {
        assert(c =~= Seq::<char>::empty());
    } else {
        let d = c.drop_last();
        assert(!d.contains('/')) by {
            if d.contains('/') {
                let m = choose|m: int| 0 <= m < d.len() && d[m] == '/';
                assert(c[m] == '/');
            }
        }
        lemma_split_no_slash(d);
        assert(c.last() != '/') by {
            assert(c[c.len() - 1] == c.last());
        }
        assert(d.push(c.last()) =~= c);
        assert(seq![d].update(0, d.push(c.last())) =~= seq![c]);
    }
}

/// Names joined by '/', with nothing before the first; empty for no names.
pub open spec fn joined(cs: Seq<Seq<char>>) -> Seq<char>
    decreases cs.len(),
{
    if cs.len() == 0 {
        Seq::empty()
    } else if cs.len() == 1 {
        cs[0]
    } else {
        joined(cs.drop_last()) + seq!['/'] + cs.last()
    }
}

/// The path that a result of `normalize_path` stands for: its components
/// joined by '/', after a leading '/' where it is absolute.
pub open spec fn rejoined(absolute: bool, cs: Seq<Seq<char>>) -> Seq<char> {
    if absolute {
        seq!['/'] + joined(cs)
    } else {
        joined(cs)
    }
}

/// The pieces of names free of '/', joined by '/', are the names; with a
/// leading '/', an empty piece comes first.
proof fn lemma_split_rejoined(cs: Seq<Seq<char>>)
    requires
        cs.len() > 0,
        forall|k: int| 0 <= k < cs.len() ==> !(#[trigger] cs[k]).contains('/'),
    ensures
        split_on_slash(joined(cs)) == cs,
        split_on_slash(seq!['/'] + joined(cs)) == seq![Seq::<char>::empty()] + cs,
    decreases cs.len(),
{
    let e = Seq::<char>::empty();
    if cs.len() == 1 {
        assert(!cs[0].contains('/'));
        lemma_split_no_slash(cs[0]);
        assert(seq![cs[0]] =~= cs);
        lemma_split_append_piece(e, cs[0]);
        assert(e + seq!['/'] + cs[0] =~= seq!['/'] + joined(cs));
        assert(split_on_slash(e) == seq![e]);
        assert(seq![e].push(cs[0]) =~= seq![e] + cs);
    } else {
        let d = cs.drop_last();
        assert forall|k: int| 0 <= k < d.len() implies !(#[trigger] d[k]).contains('/') by {
            assert(d[k] == cs[k]);
        }
        lemma_split_rejoined(d);
        assert(!cs[cs.len() - 1].contains('/'));
        lemma_split_append_piece(joined(d), cs.last());
        lemma_split_append_piece(seq!['/'] + joined(d), cs.last());
        assert(seq!['/'] + joined(d) + seq!['/'] + cs.last() =~= seq!['/'] + joined(cs));
        assert(d.push(cs.last()) =~= cs);
        assert((seq![e] + d).push(cs.last()) =~= seq![e] + cs);
    }
}

/// Normalizing plain components keeps them all.
proof fn lemma_normalize_plain_only(cs: Seq<Seq<char>>)
    requires
        forall|k: int| 0 <= k < cs.len() ==> is_plain_component(#[trigger] cs[k]),
    ensures
        normalize_pieces(cs) == cs,
    decreases cs.len(),
{
    if cs.len() > 0 {
        let d = cs.drop_last();
        assert forall|k: int| 0 <= k < d.len() implies is_plain_component(#[trigger] d[k]) by {
            assert(d[k] == cs[k]);
        }
        lemma_normalize_plain_only(d);
        assert(is_plain_component(cs[cs.len() - 1]));
        assert(apply_piece(d, cs.last()) == d.push(cs.last()));
        assert(d.push(cs.last()) =~= cs);
    }
}

/// Names joined by '/' start with the first character of the first name.
proof fn lemma_joined_first(cs: Seq<Seq<char>>)
    requires
        cs.len() > 0,
        cs[0].len() > 0,
    ensures
        joined(cs).len() > 0,
        joined(cs)[0] == cs[0][0],
    decreases cs.len(),
{
    if cs.len() > 1 {
        let d = cs.drop_last();
        assert(d[0] == cs[0]);
        lemma_joined_first(d);
    }
}

/// The components of '/'-led plain names, and the text `pwd` shows for them,
/// are those names; the text is absolute.
pub(crate) proof fn lemma_slash_joined_plain(cs: Seq<Seq<char>>)
    requires
        forall|k: int| 0 <= k < cs.len() ==> is_plain_component(#[trigger] cs[k]),
    ensures
        path_components(slash_joined(cs)) == cs,
        cs.len() > 0 ==> is_absolute(slash_joined(cs)),
{
    assert forall|k: int| 0 <= k < cs.len() implies !(#[trigger] cs[k]).contains('/') by {
        assert(is_plain_component(cs[k]));
    }
    lemma_split_joined(cs);
    lemma_normalize_plain(cs);
    if cs.len() > 0 {
        lemma_slash_joined_first(cs);
    }
}

/// '/'-led names start with '/'.
proof fn lemma_slash_joined_first(cs: Seq<Seq<char>>)
    requires
        cs.len() > 0,
    ensures
        slash_joined(cs).len() > 0,
        slash_joined(cs)[0] == '/',
    decreases cs.len(),
{
    let d = cs.drop_last();
    if d.len() > 0 {
        lemma_slash_joined_first(d);
    } else {
        assert(slash_joined(d) == Seq::<char>::empty());
    }
}

/// Normalization is idempotent: rejoining the result of normalizing a path
/// (a leading '/' where it is absolute, then the components joined by '/')
/// and normalizing that again gives the same result.
pub proof fn lemma_normalize_idempotent(path: Seq<char>)
    ensures
        ({
            let q = rejoined(is_absolute(path), path_components(path));
            is_absolute(q) == is_absolute(path) && path_components(q) == path_components(path)
        }),
{
    let cs = path_components(path);
    let abs = is_absolute(path);
    let q = rejoined(abs, cs);
    lemma_components_are_plain(path);
    assert forall|k: int| 0 <= k < cs.len() implies !(#[trigger] cs[k]).contains('/') by {
        assert(is_plain_component(cs[k]));
    }
    if cs.len() == 0 {
        if abs {
            assert(q =~= seq!['/']);
            lemma_root_path(q);
        } else {
            assert(q =~= Seq::<char>::empty());
            assert(split_on_slash(q) == seq![Seq::<char>::empty()]);
            let p = split_on_slash(q);
            assert(p.drop_last() =~= Seq::<Seq<char>>::empty());
            assert(normalize_pieces(p.drop_last()) == Seq::<Seq<char>>::empty());
            assert(normalize_pieces(p) == apply_piece(Seq::<Seq<char>>::empty(), p.last()));
        }
    } else {
        lemma_split_rejoined(cs);
        if abs {
            lemma_normalize_plain(cs);
        } else {
            lemma_normalize_plain_only(cs);
            assert(is_plain_component(cs[0]));
            lemma_joined_first(cs);
        }
    }
}

/// A plain component, as a path, is relative and names just itself.
pub(crate) proof fn lemma_single_component(c: Seq<char>)
    requires
        is_plain_component(c),
    ensures
        path_components(c) == seq![c],
        !is_absolute(c),
{
    lemma_split_no_slash(c);
    let cs = seq![c];
    assert forall|k: int| 0 <= k < cs.len() implies is_plain_component(#[trigger] cs[k]) by {
        assert(cs[k] == c);
    }
    lemma_normalize_plain_only(cs);
    assert(c[0] != '/') by {
        assert(!c.contains('/'));
        if c[0] == '/' {
            assert(c.contains('/'));
        }
    }
}

} // verus!
