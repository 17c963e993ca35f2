//! Character-level models of the small amount of path and text handling the
//! digest needs: splitting a path into components, joining components with
//! forward slashes, file-name extensions, trailing-whitespace trimming, and a
//! lexicographic order on strings.

use vstd::prelude::*;

verus! {

/// Both separators are recognised on every platform, so a digest built from
/// the same input list is identical everywhere.
pub open spec fn is_sep(c: char) -> bool {
    c == '/' || c == '\\'
}

/// Code-point order on characters.
pub open spec fn char_lt(a: char, b: char) -> bool {
    (a as u32) < (b as u32)
}

/// Strict lexicographic order on character sequences, by code point, with a
/// proper prefix ordered before its extensions.
pub open spec fn seq_char_lt(a: Seq<char>, b: Seq<char>) -> bool
    decreases a.len(),
{
    if b.len() == 0 {
        false
    } else if a.len() == 0 {
        true
    } else if char_lt(a[0], b[0]) {
        true
    } else if a[0] == b[0] {
        seq_char_lt(a.drop_first(), b.drop_first())
    } else {
        false
    }
}

/// The components of a path: the maximal separator-free runs, in order.
/// Splitting keeps empty components, so a run of separators or a trailing
/// separator shows up as an empty component; filtering is a separate step.
pub open spec fn split_path(s: Seq<char>) -> Seq<Seq<char>>
    decreases s.len(),
{
    if s.len() == 0 {
        seq![Seq::<char>::empty()]
    } else if is_sep(s[0]) {
        seq![Seq::<char>::empty()] + split_path(s.drop_first())
    } else {
        let rest = split_path(s.drop_first());
        seq![seq![s[0]] + rest[0]] + rest.drop_first()
    }
}

/// A component is kept in the formatted path when it is neither empty nor the
/// current-directory marker.
pub open spec fn keep_component(c: Seq<char>) -> bool {
    c.len() > 0 && c != seq!['.']
}

/// The components that survive filtering, in order.
pub open spec fn kept_components(cs: Seq<Seq<char>>) -> Seq<Seq<char>>
    decreases cs.len(),
{
    if cs.len() == 0 {
        Seq::empty()
    } else if keep_component(cs[0]) {
        seq![cs[0]] + kept_components(cs.drop_first())
    } else {
        kept_components(cs.drop_first())
    }
}

/// Components joined with a single forward slash between neighbours.
pub open spec fn join_slash(cs: Seq<Seq<char>>) -> Seq<char>
    decreases cs.len(),
{
    if cs.len() == 0 {
        Seq::empty()
    } else if cs.len() == 1 {
        cs[0]
    } else {
        cs[0] + seq!['/'] + join_slash(cs.drop_first())
    }
}

/// The canonical digest form of a path: its non-empty, non-`.` components
/// joined with forward slashes.
pub open spec fn format_path_spec(s: Seq<char>) -> Seq<char> {
    join_slash(kept_components(split_path(s)))
}

/// The file name of a path: the suffix after its last separator.
pub open spec fn name_of(s: Seq<char>) -> Seq<char>
    decreases s.len(),
{
    if s.len() == 0 || is_sep(s.last()) {
        Seq::empty()
    } else {
        name_of(s.drop_last()).push(s.last())
    }
}

/// The extension of a file name: the suffix after its last dot, provided a
/// character precedes that dot. A name whose only dot is its first character
/// has no extension.
pub open spec fn ext_of_name(name: Seq<char>) -> Option<Seq<char>>
    decreases name.len(),
{
    if name.len() == 0 {
        None
    } else if name.last() == '.' {
        if name.len() == 1 {
            None
        } else {
            Some(Seq::empty())
        }
    } else {
        match ext_of_name(name.drop_last()) {
            Some(e) => Some(e.push(name.last())),
            None => None,
        }
    }
}

/// The extension of a path's file name, or the empty sequence when there is
/// none.
pub open spec fn extension_of(s: Seq<char>) -> Seq<char> {
    match ext_of_name(name_of(s)) {
        Some(e) => e,
        None => Seq::empty(),
    }
}

/// The Unicode white-space characters, as fixed by the White_Space property.
pub open spec fn is_space(c: char) -> bool {
    ||| c == '\u{0009}'
    ||| c == '\u{000A}'
    ||| c == '\u{000B}'
    ||| c == '\u{000C}'
    ||| c == '\u{000D}'
    ||| c == '\u{0020}'
    ||| c == '\u{0085}'
    ||| c == '\u{00A0}'
    ||| c == '\u{1680}'
    ||| ('\u{2000}' <= c && c <= '\u{200A}')
    ||| c == '\u{2028}'
    ||| c == '\u{2029}'
    ||| c == '\u{202F}'
    ||| c == '\u{205F}'
    ||| c == '\u{3000}'
}

/// The sequence with its trailing white space removed.
pub open spec fn trim_end_spec(s: Seq<char>) -> Seq<char>
    decreases s.len(),
{
    if s.len() > 0 && is_space(s.last()) {
        trim_end_spec(s.drop_last())
    } else {
        s
    }
}

/// Decides `is_sep` on a character.
pub fn is_sep_char(c: char) -> (r: bool)
    ensures
        r == is_sep(c),
{
    c == '/' || c == '\\'
}

/// Decides `is_space` on a character.
pub fn is_space_char(c: char) -> (r: bool)
    ensures
        r == is_space(c),
{
    let u = c as u32;
    (0x9 <= u && u <= 0xD) || u == 0x20 || u == 0x85 || u == 0xA0 || u == 0x1680 || (0x2000 <= u
        && u <= 0x200A) || u == 0x2028 || u == 0x2029 || u == 0x202F || u == 0x205F || u == 0x3000
}

/// Decides the lexicographic order `seq_char_lt` on two strings.
pub fn str_lt(a: &str, b: &str) -> (r: bool)
    ensures
        r == seq_char_lt(a@, b@),
{
    let na = a.unicode_len();
    let nb = b.unicode_len();
    let mut i: usize = 0;
    proof {
        assert(a@.skip(0) =~= a@);
        assert(b@.skip(0) =~= b@);
    }
    while i < na && i < nb
        invariant
            na == a@.len(),
            nb == b@.len(),
            i <= na,
            i <= nb,
            seq_char_lt(a@, b@) == seq_char_lt(a@.skip(i as int), b@.skip(i as int)),
        decreases na - i,
    {
        let ca = a.get_char(i);
        let cb = b.get_char(i);
        proof {
            lemma_seq_char_lt_step(a@, b@, i as int);
        }
        if (ca as u32) < (cb as u32) {
            return true;
        }
        if (ca as u32) > (cb as u32) {
            return false;
        }
        i = i + 1;
    }
    proof {
        if i == na {
            assert(a@.skip(i as int).len() == 0);
        } else {
            assert(b@.skip(i as int).len() == 0);
        }
    }
    i < nb
}

/// Unfolds one step of `seq_char_lt` at position `i` of two sequences.
proof fn lemma_seq_char_lt_step(a: Seq<char>, b: Seq<char>, i: int)
    requires
        0 <= i < a.len(),
        0 <= i < b.len(),
    ensures
        char_lt(a[i], b[i]) ==> seq_char_lt(a.skip(i), b.skip(i)),
        char_lt(b[i], a[i]) ==> !seq_char_lt(a.skip(i), b.skip(i)),
        a[i] == b[i] ==> seq_char_lt(a.skip(i), b.skip(i)) == seq_char_lt(
            a.skip(i + 1),
            b.skip(i + 1),
        ),
{
    assert(a.skip(i).len() > 0);
    assert(b.skip(i).len() > 0);
    assert(a.skip(i)[0] == a[i]);
    assert(b.skip(i)[0] == b[i]);
    assert(a.skip(i).drop_first() =~= a.skip(i + 1));
    assert(b.skip(i).drop_first() =~= b.skip(i + 1));
}

/// Characters with the same code point are the same character.
proof fn lemma_char_code_eq(a: char, b: char)
    requires
        a as u32 == b as u32,
    ensures
        a == b,
{
}

/// Two sequences neither of which is below the other are equal.
pub proof fn lemma_seq_char_lt_total(a: Seq<char>, b: Seq<char>)
    requires
        !seq_char_lt(a, b),
        !seq_char_lt(b, a),
    ensures
        a == b,
    decreases a.len(),
{
    if b.len() == 0 {
        assert(a.len() == 0);
        assert(a =~= b);
    } else {
        assert(a.len() > 0);
        assert(!char_lt(a[0], b[0]) && !char_lt(b[0], a[0]));
        lemma_char_code_eq(a[0], b[0]);
        lemma_seq_char_lt_total(a.drop_first(), b.drop_first());
        assert(a.drop_first().len() == b.drop_first().len());
        assert(a.len() == b.len());
        assert forall|i: int| 0 <= i < a.len() implies a[i] == b[i] by {
            if i > 0 {
                assert(a[i] == a.drop_first()[i - 1]);
                assert(b[i] == b.drop_first()[i - 1]);
            }
        }
        assert(a =~= b);
    }
}

/// Every string splits into at least one component.
pub proof fn lemma_split_path_nonempty(s: Seq<char>)
    ensures
        split_path(s).len() >= 1,
    decreases s.len(),
{
    if s.len() > 0 {
        lemma_split_path_nonempty(s.drop_first());
    }
}

/// Unfolds `split_path` at position `i`: the split of the suffix from `i`
/// either gains `s[i]` at the head of its first component or, at a separator,
/// a fresh empty component.
proof fn lemma_split_path_step(s: Seq<char>, i: int)
    requires
        0 <= i < s.len(),
    ensures
        split_path(s.skip(i + 1)).len() >= 1,
        is_sep(s[i]) ==> split_path(s.skip(i)) == seq![Seq::<char>::empty()] + split_path(
            s.skip(i + 1),
        ),
        !is_sep(s[i]) ==> split_path(s.skip(i)) == seq![
            seq![s[i]] + split_path(s.skip(i + 1))[0],
        ] + split_path(s.skip(i + 1)).drop_first(),
{
    lemma_split_path_nonempty(s.skip(i + 1));
    assert(s.skip(i).len() > 0);
    assert(s.skip(i)[0] == s[i]);
    assert(s.skip(i).drop_first() =~= s.skip(i + 1));
}

/// Splits a string into its path components, keeping empty ones, as
/// `split_path` describes.
pub fn path_components(s: &str) -> (v: Vec<String>)
    ensures
        v.deep_view() == split_path(s@),
{
    let n = s.unicode_len();
    let mut comps: Vec<String> = Vec::new();
    let mut start: usize = 0;
    let mut i: usize = 0;
    proof {
        assert(s@.skip(0) =~= s@);
        assert(s@.subrange(0, 0) =~= Seq::<char>::empty());
        lemma_split_path_nonempty(s@);
        assert(split_path(s@) =~~= comps.deep_view() + seq![
            s@.subrange(0, 0) + split_path(s@.skip(0))[0],
        ] + split_path(s@.skip(0)).drop_first());
    }
    while i < n
        invariant
            n == s@.len(),
            0 <= start <= i <= n,
            split_path(s@.skip(i as int)).len() >= 1,
            split_path(s@) == comps.deep_view() + seq![
                s@.subrange(start as int, i as int) + split_path(s@.skip(i as int))[0],
            ] + split_path(s@.skip(i as int)).drop_first(),
        decreases n - i,
    {
        let c = s.get_char(i);
        proof {
            lemma_split_path_step(s@, i as int);
        }
        if is_sep_char(c) {
            let comp = s.substring_char(start, i).to_owned();
            let ghost old_dv = comps.deep_view();
            comps.push(comp);
            proof {
                assert(comps.deep_view() =~~= old_dv.push(s@.subrange(start as int, i as int)));
                assert(s@.subrange((i + 1) as int, (i + 1) as int) =~= Seq::<char>::empty());
                assert(split_path(s@) =~~= comps.deep_view() + seq![
                    s@.subrange((i + 1) as int, (i + 1) as int) + split_path(
                        s@.skip((i + 1) as int),
                    )[0],
                ] + split_path(s@.skip((i + 1) as int)).drop_first());
            }
            start = i + 1;
        } else {
            proof {
                assert(s@.subrange(start as int, (i + 1) as int) =~= s@.subrange(
                    start as int,
                    i as int,
                ) + seq![s@[i as int]]);
                assert(s@.subrange(start as int, (i + 1) as int) + split_path(
                    s@.skip((i + 1) as int),
                )[0] =~= s@.subrange(start as int, i as int) + (seq![s@[i as int]] + split_path(
                    s@.skip((i + 1) as int),
                )[0]));
                assert(split_path(s@) =~~= comps.deep_view() + seq![
                    s@.subrange(start as int, (i + 1) as int) + split_path(
                        s@.skip((i + 1) as int),
                    )[0],
                ] + split_path(s@.skip((i + 1) as int)).drop_first());
            }
        }
        i = i + 1;
    }
    let last = s.substring_char(start, n).to_owned();
    let ghost old_dv = comps.deep_view();
    comps.push(last);
    proof {
        assert(s@.skip(n as int) =~= Seq::<char>::empty());
        assert(split_path(s@.skip(n as int)) =~~= seq![Seq::<char>::empty()]);
        assert(s@.subrange(start as int, n as int) + Seq::<char>::empty() =~= s@.subrange(
            start as int,
            n as int,
        ));
        assert(comps.deep_view() =~~= old_dv.push(s@.subrange(start as int, n as int)));
        assert(comps.deep_view() =~~= split_path(s@));
    }
    comps
}

/// Decides `keep_component` on a component string.
pub fn is_kept_component(c: &String) -> (r: bool)
    ensures
        r == keep_component(c@),
{
    let n = c.as_str().unicode_len();
    if n == 0 {
        false
    } else if n == 1 && c.as_str().get_char(0) == '.' {
        proof {
            assert(c@ =~= seq!['.']);
        }
        false
    } else {
        proof {
            if c@ == seq!['.'] {
                assert(c@.len() == 1 && c@[0] == '.');
            }
        }
        true
    }
}

/// Keeps the non-empty, non-`.` components, as `kept_components` describes.
pub fn filter_components(cs: Vec<String>) -> (r: Vec<String>)
    ensures
        r.deep_view() == kept_components(cs.deep_view()),
{
    let mut out: Vec<String> = Vec::new();
    let mut i: usize = 0;
    proof {
        assert(cs.deep_view().skip(0) =~~= cs.deep_view());
        assert(kept_components(cs.deep_view()) =~~= out.deep_view() + kept_components(
            cs.deep_view().skip(0),
        ));
    }
    while i < cs.len()
        invariant
            i <= cs.len(),
            kept_components(cs.deep_view()) == out.deep_view() + kept_components(
                cs.deep_view().skip(i as int),
            ),
        decreases cs.len() - i,
    {
        proof {
            assert(cs.deep_view().skip(i as int).len() > 0);
            assert(cs.deep_view().skip(i as int)[0] == cs.deep_view()[i as int]);
            assert(cs.deep_view().skip(i as int).drop_first() =~~= cs.deep_view().skip(i + 1));
            assert(cs.deep_view()[i as int] == cs@[i as int]@);
        }
        let keep = is_kept_component(&cs[i]);
        if keep {
            let ghost old_dv = out.deep_view();
            out.push(cs[i].clone());
            proof {
                assert(out.deep_view() =~~= old_dv.push(cs.deep_view()[i as int]));
                assert(kept_components(cs.deep_view()) =~~= out.deep_view() + kept_components(
                    cs.deep_view().skip(i + 1),
                ));
            }
        } else {
            proof {
                assert(kept_components(cs.deep_view()) =~~= out.deep_view() + kept_components(
                    cs.deep_view().skip(i + 1),
                ));
            }
        }
        i = i + 1;
    }
    proof {
        assert(cs.deep_view().skip(i as int) =~~= Seq::<Seq<char>>::empty());
        assert(kept_components(cs.deep_view()) =~~= out.deep_view());
    }
    out
}

/// Joining one more component appends a slash and that component.
proof fn lemma_join_slash_push(cs: Seq<Seq<char>>, x: Seq<char>)
    requires
        cs.len() >= 1,
    ensures
        join_slash(cs.push(x)) == join_slash(cs) + seq!['/'] + x,
    decreases cs.len(),
{
    if cs.len() == 1 {
        assert(cs.push(x)[0] == cs[0]);
        assert(cs.push(x).drop_first() =~~= seq![x]);
        assert(join_slash(seq![x]) == x);
        assert(join_slash(cs.push(x)) == cs.push(x)[0] + seq!['/'] + join_slash(
            cs.push(x).drop_first(),
        ));
        assert(join_slash(cs.push(x)) =~~= cs[0] + seq!['/'] + x);
    } else {
        assert(cs.push(x).drop_first() =~~= cs.drop_first().push(x));
        lemma_join_slash_push(cs.drop_first(), x);
        assert(join_slash(cs.push(x)) =~~= join_slash(cs) + seq!['/'] + x);
    }
}

/// Joins components with forward slashes, as `join_slash` describes.
pub fn join_components(cs: &Vec<String>) -> (r: String)
    ensures
        r@ == join_slash(cs.deep_view()),
{
    if cs.len() == 0 {
        proof {
            assert(cs.deep_view() =~~= Seq::<Seq<char>>::empty());
        }
        return String::new();
    }
    let mut out: String = cs[0].clone();
    let mut i: usize = 1;
    proof {
        assert(cs.deep_view().take(1) =~~= seq![cs.deep_view()[0]]);
        assert(cs.deep_view()[0] == cs@[0]@);
        assert(out@ == join_slash(cs.deep_view().take(1)));
    }
    while i < cs.len()
        invariant
            1 <= i <= cs.len(),
            out@ == join_slash(cs.deep_view().take(i as int)),
        decreases cs.len() - i,
    {
        proof {
            reveal_strlit("/");
            assert("/"@ =~= seq!['/']);
            assert(cs.deep_view().take(i + 1) =~~= cs.deep_view().take(i as int).push(
                cs.deep_view()[i as int],
            ));
            lemma_join_slash_push(cs.deep_view().take(i as int), cs.deep_view()[i as int]);
            assert(cs.deep_view()[i as int] == cs@[i as int]@);
        }
        out.append("/");
        out.append(cs[i].as_str());
        i = i + 1;
    }
    proof {
        assert(cs.deep_view().take(i as int) =~~= cs.deep_view());
    }
    out
}

/// The extension of the path's file name, as `extension_of` describes, or the
/// empty string when the name has none.
pub fn path_extension(s: &str) -> (r: String)
    ensures
        r@ == extension_of(s@),
{
    let n = s.unicode_len();
    let mut j: usize = n;
    proof {
        assert(s@.take(n as int) =~= s@);
        assert(s@.skip(n as int) =~= Seq::<char>::empty());
        if ext_of_name(name_of(s@)) is Some {
            let e = ext_of_name(name_of(s@))->0;
            assert(e + s@.skip(n as int) =~= e);
        }
    }
    loop
        invariant
            j <= n,
            n == s@.len(),
            ext_of_name(name_of(s@)) == (match ext_of_name(name_of(s@.take(j as int))) {
                Some(e) => Some(e + s@.skip(j as int)),
                None => None::<Seq<char>>,
            }),
        ensures
            j == 0,
            ext_of_name(name_of(s@)) == (match ext_of_name(name_of(s@.take(j as int))) {
                Some(e) => Some(e + s@.skip(j as int)),
                None => None::<Seq<char>>,
            }),
        decreases j,
    {
        if j == 0 {
            break ;
        }
        let c = s.get_char(j - 1);
        proof {
            assert(s@.take(j as int).len() == j);
            assert(s@.take(j as int).last() == s@[j - 1]);
            assert(s@.take(j as int).drop_last() =~= s@.take(j - 1));
        }
        if is_sep_char(c) {
            // the file name ends here without a dot, so there is no extension
            proof {
                assert(name_of(s@.take(j as int)) =~= Seq::<char>::empty());
                assert(ext_of_name(Seq::<char>::empty()) is None);
                assert(ext_of_name(name_of(s@.take(j as int))) is None);
                assert(ext_of_name(name_of(s@)) == (match ext_of_name(name_of(s@.take(j as int))) {
                    Some(e) => Some(e + s@.skip(j as int)),
                    None => None::<Seq<char>>,
                }));
                assert(ext_of_name(name_of(s@)) == None::<Seq<char>>);
            }
            return String::new();
        }
        if c == '.' {
            let valid: bool = if j - 1 == 0 {
                false
            } else {
                let p = s.get_char(j - 2);
                proof {
                    assert(s@.take(j - 1).len() == j - 1);
                    assert(s@.take(j - 1).last() == s@[j - 2]);
                }
                !is_sep_char(p)
            };
            if valid {
                proof {
                    assert(name_of(s@.take(j as int)) == name_of(s@.take(j - 1)).push('.'));
                    assert(name_of(s@.take(j - 1)).len() >= 1);
                    assert(ext_of_name(name_of(s@.take(j as int))) == Some(Seq::<char>::empty()));
                    assert(Seq::<char>::empty() + s@.skip(j as int) =~= s@.subrange(
                        j as int,
                        n as int,
                    ));
                }
                return s.substring_char(j, n).to_owned();
            } else {
                proof {
                    if j == 1 {
                        assert(name_of(s@.take(0)) =~= Seq::<char>::empty());
                        assert(name_of(s@.take(1)) =~= seq!['.']);
                    } else {
                        assert(is_sep(s@[j - 2]));
                        assert(s@.take(j - 1).last() == s@[j - 2]);
                        assert(name_of(s@.take(j - 1)) =~= Seq::<char>::empty());
                        assert(name_of(s@.take(j as int)) =~= seq!['.']);
                    }
                    assert(name_of(s@.take(j as int)).len() == 1);
                    assert(ext_of_name(name_of(s@.take(j as int))) is None);
                    assert(ext_of_name(name_of(s@)) == None::<Seq<char>>);
                }
                return String::new();
            }
        }
        proof {
            assert(name_of(s@.take(j as int)) == name_of(s@.take(j - 1)).push(s@[j - 1]));
            let nm = name_of(s@.take(j as int));
            assert(nm.len() >= 1 && nm.last() == s@[j - 1]);
            assert(nm.drop_last() =~= name_of(s@.take(j - 1)));
            if ext_of_name(name_of(s@.take(j - 1))) is Some {
                let e = ext_of_name(name_of(s@.take(j - 1)))->0;
                assert(ext_of_name(nm) == Some(e.push(s@[j - 1])));
                assert(e.push(s@[j - 1]) + s@.skip(j as int) =~= e + s@.skip(j - 1));
            } else {
                assert(ext_of_name(nm) is None);
            }
        }
        j = j - 1;
    }
    proof {
        assert(s@.take(0) =~= Seq::<char>::empty());
        assert(name_of(s@.take(0)) =~= Seq::<char>::empty());
        assert(ext_of_name(name_of(s@.take(0))) is None);
        assert(ext_of_name(name_of(s@)) == None::<Seq<char>>);
    }
    String::new()
}

/// Removes trailing white space, as `trim_end_spec` describes.
pub fn trim_end_exec(s: &str) -> (r: String)
    ensures
        r@ == trim_end_spec(s@),
{
    let n = s.unicode_len();
    let mut j: usize = n;
    proof {
        assert(s@.take(n as int) =~= s@);
    }
    loop
        invariant
            j <= n,
            n == s@.len(),
            trim_end_spec(s@) == trim_end_spec(s@.take(j as int)),
        ensures
            j <= n,
            n == s@.len(),
            trim_end_spec(s@) == trim_end_spec(s@.take(j as int)),
            j == 0 || !is_space(s@[j - 1]),
        decreases j,
    {
        if j == 0 {
            break ;
        }
        let c = s.get_char(j - 1);
        if !is_space_char(c) {
            break ;
        }
        proof {
            assert(s@.take(j as int).len() == j);
            assert(s@.take(j as int).last() == s@[j - 1]);
            assert(s@.take(j as int).drop_last() =~= s@.take(j - 1));
        }
        j = j - 1;
    }
    proof {
        if j > 0 {
            assert(s@.take(j as int).last() == s@[j - 1]);
            assert(trim_end_spec(s@.take(j as int)) == s@.take(j as int));
        } else {
            assert(s@.take(0) =~= Seq::<char>::empty());
        }
        assert(s@.subrange(0, j as int) =~= s@.take(j as int));
    }
    s.substring_char(0, j).to_owned()
}

/// The lexicographic order is irreflexive: no sequence lies below itself.
pub proof fn lemma_seq_char_lt_irrefl(a: Seq<char>)
    ensures
        !seq_char_lt(a, a),
    decreases a.len(),
{
    if a.len() > 0 {
        lemma_seq_char_lt_irrefl(a.drop_first());
    }
}

/// The lexicographic order is transitive.
pub proof fn lemma_seq_char_lt_trans(a: Seq<char>, b: Seq<char>, c: Seq<char>)
    requires
        seq_char_lt(a, b),
        seq_char_lt(b, c),
    ensures
        seq_char_lt(a, c),
    decreases a.len(),
{
    assert(c.len() > 0);
    if a.len() == 0 {
    } else {
        assert(b.len() > 0);
        if char_lt(a[0], b[0]) {
            if char_lt(b[0], c[0]) {
            } else {
                assert(b[0] == c[0]);
            }
        } else {
            assert(a[0] == b[0]);
            if char_lt(b[0], c[0]) {
            } else {
                assert(b[0] == c[0]);
                lemma_seq_char_lt_trans(a.drop_first(), b.drop_first(), c.drop_first());
            }
        }
    }
}

} // verus!
