//! The digest-level prologue: either a flat list of the included files or an
//! indented tree of them, both relative to the traversal root.
//!
//! The tree is modelled twice: `SpecTree`, a ghost tree whose children are a
//! sequence, carries the specification — how paths are inserted and how a
//! tree renders — and the executable `TreeNode` is tied to it by the
//! `corresponds` relation, so every operation on the real tree is proved
//! against the ghost one.

use vstd::prelude::*;

use crate::decorator::GlobalDecorator;
use crate::decorator::PrologueMode;
use crate::decorator::format_path;
use crate::text::filter_components;
use crate::text::format_path_spec;
use crate::text::is_sep;
use crate::text::is_sep_char;
use crate::text::kept_components;
use crate::text::path_components;
use crate::text::lemma_seq_char_lt_irrefl;
use crate::text::lemma_seq_char_lt_total;
use crate::text::lemma_seq_char_lt_trans;
use crate::text::seq_char_lt;
use crate::text::split_path;
use crate::text::str_lt;

verus! {

/// Whether `root` is a prefix of `file` ending at a component boundary, so
/// that stripping it leaves a sensible relative path.
pub open spec fn root_prefixes(root: Seq<char>, file: Seq<char>) -> bool {
    &&& root.len() > 0
    &&& file.len() >= root.len()
    &&& file.subrange(0, root.len() as int) == root
    &&& (file.len() == root.len() || is_sep(file[root.len() as int]) || is_sep(root.last()))
}

/// The path relative to the root: `file` with the `root` prefix removed when
/// it is a prefix on a component boundary, and `file` unchanged otherwise.
pub open spec fn strip_root_spec(root: Seq<char>, file: Seq<char>) -> Seq<char> {
    if root_prefixes(root, file) {
        file.skip(root.len() as int)
    } else {
        file
    }
}

/// The tree path of a file: the kept components of its root-relative path.
pub open spec fn file_node_path(root: Seq<char>, file: Seq<char>) -> Seq<Seq<char>> {
    kept_components(split_path(strip_root_spec(root, file)))
}

/// The ghost tree: children keyed by name, in order, each marked when some
/// file ends exactly there.
pub struct SpecTree {
    /// The named children, in the order they are printed.
    pub children: Seq<(Seq<char>, SpecTree)>,
    /// Whether a file's path ends at this node.
    pub is_file: bool,
}

/// The empty ghost tree.
pub open spec fn stree_empty() -> SpecTree {
    SpecTree { children: Seq::empty(), is_file: false }
}

/// Where a name belongs among children: past every child whose name is
/// lexicographically below it.
pub open spec fn insert_pos(children: Seq<(Seq<char>, SpecTree)>, name: Seq<char>) -> int
    decreases children.len(),
{
    if children.len() == 0 {
        0
    } else if seq_char_lt(children[0].0, name) {
        1 + insert_pos(children.drop_first(), name)
    } else {
        0
    }
}

/// A path inserted into the ghost tree: descend through existing children
/// with matching names, create the missing ones at their ordered position,
/// and mark the final node as a file.
pub open spec fn stree_insert(t: SpecTree, p: Seq<Seq<char>>) -> SpecTree
    decreases p.len(),
{
    if p.len() == 0 {
        SpecTree { children: t.children, is_file: true }
    } else {
        let i = insert_pos(t.children, p[0]);
        if i < t.children.len() && t.children[i].0 == p[0] {
            let sub = stree_insert(t.children[i].1, p.drop_first());
            SpecTree { children: t.children.update(i, (p[0], sub)), is_file: t.is_file }
        } else {
            let sub = stree_insert(stree_empty(), p.drop_first());
            SpecTree { children: t.children.insert(i, (p[0], sub)), is_file: t.is_file }
        }
    }
}

/// The ghost tree of an ordered file list: each file's tree path inserted in
/// turn.
pub open spec fn stree_of_files(root: Seq<char>, files: Seq<Seq<char>>) -> SpecTree
    decreases files.len(),
{
    if files.len() == 0 {
        stree_empty()
    } else {
        stree_insert(stree_of_files(root, files.drop_last()), file_node_path(root, files.last()))
    }
}

/// Whether every level of the ghost tree keeps its children in strictly
/// increasing name order — so no name appears twice at one level.
pub open spec fn stree_sorted(t: SpecTree) -> bool
    decreases t,
{
    &&& (forall|i: int, j: int|
        0 <= i < j < t.children.len() ==> seq_char_lt(
            (#[trigger] t.children[i]).0,
            (#[trigger] t.children[j]).0,
        ))
    &&& (forall|i: int| 0 <= i < t.children.len() ==> stree_sorted((#[trigger] t.children[i]).1))
}

/// Whether following the path's components through the tree, name by name,
/// ends at a node marked as a file.
pub open spec fn stree_has_file(t: SpecTree, p: Seq<Seq<char>>) -> bool
    decreases p.len(),
{
    if p.len() == 0 {
        t.is_file
    } else {
        exists|i: int|
            0 <= i < t.children.len() && (#[trigger] t.children[i]).0 == p[0] && stree_has_file(
                t.children[i].1,
                p.drop_first(),
            )
    }
}

/// Every child before the insertion position lies below the name, and the
/// child at it, if any, does not.
proof fn lemma_insert_pos_bounds(children: Seq<(Seq<char>, SpecTree)>, name: Seq<char>)
    ensures
        0 <= insert_pos(children, name) <= children.len(),
        forall|k: int|
            0 <= k < insert_pos(children, name) ==> seq_char_lt(
                (#[trigger] children[k]).0,
                name,
            ),
        insert_pos(children, name) < children.len() ==> !seq_char_lt(
            children[insert_pos(children, name)].0,
            name,
        ),
    decreases children.len(),
{
    if children.len() > 0 && seq_char_lt(children[0].0, name) {
        lemma_insert_pos_bounds(children.drop_first(), name);
        let pos = insert_pos(children, name);
        assert forall|k: int| 0 <= k < pos implies seq_char_lt(
            (#[trigger] children[k]).0,
            name,
        ) by {
            if k > 0 {
                assert(children.drop_first()[k - 1] == children[k]);
            }
        }
        if pos < children.len() {
            assert(children.drop_first()[pos - 1] == children[pos]);
        }
    }
}

/// In a sorted level, no child at or past the insertion position carries
/// the name unless it stands exactly at that position.
proof fn lemma_name_only_at_insert_pos(
    children: Seq<(Seq<char>, SpecTree)>,
    name: Seq<char>,
    j: int,
)
    requires
        forall|a: int, b: int|
            0 <= a < b < children.len() ==> seq_char_lt(
                (#[trigger] children[a]).0,
                (#[trigger] children[b]).0,
            ),
        0 <= j < children.len(),
        children[j].0 == name,
    ensures
        j == insert_pos(children, name),
{
    let pos = insert_pos(children, name);
    lemma_insert_pos_bounds(children, name);
    lemma_seq_char_lt_irrefl(name);
    if j < pos {
        assert(seq_char_lt(children[j].0, name));
        assert(false);
    }
    if j > pos {
        // sortedness puts the child at the position below the name, which
        // the position's own bound forbids
        assert(seq_char_lt(children[pos].0, children[j].0));
        assert(false);
    }
}

/// Inserting a path keeps every level of the tree sorted.
pub proof fn lemma_stree_insert_sorted(t: SpecTree, p: Seq<Seq<char>>)
    requires
        stree_sorted(t),
    ensures
        stree_sorted(stree_insert(t, p)),
    decreases p.len(),
{
    if p.len() == 0 {
        let t2 = stree_insert(t, p);
        assert(t2.children == t.children);
    } else {
        let pos = insert_pos(t.children, p[0]);
        lemma_insert_pos_bounds(t.children, p[0]);
        let t2 = stree_insert(t, p);
        if pos < t.children.len() && t.children[pos].0 == p[0] {
            lemma_stree_insert_sorted(t.children[pos].1, p.drop_first());
            let sub = stree_insert(t.children[pos].1, p.drop_first());
            assert(t2.children == t.children.update(pos, (p[0], sub)));
            assert forall|a: int, b: int| 0 <= a < b < t2.children.len() implies seq_char_lt(
                (#[trigger] t2.children[a]).0,
                (#[trigger] t2.children[b]).0,
            ) by {
                assert(t2.children[a].0 == t.children[a].0);
                assert(t2.children[b].0 == t.children[b].0);
            }
            assert forall|i: int| 0 <= i < t2.children.len() implies stree_sorted(
                (#[trigger] t2.children[i]).1,
            ) by {
                if i != pos {
                    assert(t2.children[i] == t.children[i]);
                }
            }
        } else {
            lemma_stree_insert_sorted(stree_empty(), p.drop_first());
            let sub = stree_insert(stree_empty(), p.drop_first());
            assert(t2.children == t.children.insert(pos, (p[0], sub)));
            assert forall|a: int, b: int| 0 <= a < b < t2.children.len() implies seq_char_lt(
                (#[trigger] t2.children[a]).0,
                (#[trigger] t2.children[b]).0,
            ) by {
                lemma_seq_char_lt_irrefl(p[0]);
                if a < pos {
                    assert(t2.children[a] == t.children[a]);
                }
                if pos < a {
                    assert(t2.children[a] == t.children[a - 1]);
                }
                if b < pos {
                    assert(t2.children[b] == t.children[b]);
                }
                if pos < b {
                    assert(t2.children[b] == t.children[b - 1]);
                }
                if a == pos || b == pos {
                    // the new name lies above everything before the
                    // position and below everything from it on
                    if pos < t.children.len() {
                        if !seq_char_lt(p[0], t.children[pos].0) {
                            lemma_seq_char_lt_total(t.children[pos].0, p[0]);
                            assert(t.children[pos].0 == p[0]);
                            assert(false);
                        }
                        assert(seq_char_lt(p[0], t.children[pos].0));
                    }
                    if b == pos {
                        assert(seq_char_lt(t.children[a].0, p[0]));
                    }
                    if a == pos {
                        assert(seq_char_lt(p[0], t.children[pos].0));
                        if b > pos + 1 {
                            lemma_seq_char_lt_trans(
                                p[0],
                                t.children[pos].0,
                                t.children[b - 1].0,
                            );
                        }
                    }
                }
            }
            assert forall|i: int| 0 <= i < t2.children.len() implies stree_sorted(
                (#[trigger] t2.children[i]).1,
            ) by {
                if i < pos {
                    assert(t2.children[i] == t.children[i]);
                } else if i == pos {
                    assert(t2.children[i].1 == sub);
                } else {
                    assert(t2.children[i] == t.children[i - 1]);
                }
            }
        }
    }
}

/// Inserting a path marks exactly that path as a file, and disturbs no
/// other: afterwards the tree holds a file path exactly when it held it
/// before or it is the inserted one.
pub proof fn lemma_stree_insert_has_file(t: SpecTree, p: Seq<Seq<char>>, q: Seq<Seq<char>>)
    requires
        stree_sorted(t),
    ensures
        stree_has_file(stree_insert(t, p), q) <==> (stree_has_file(t, q) || q == p),
    decreases p.len(),
{
    let t2 = stree_insert(t, p);
    if p.len() == 0 {
        if q.len() == 0 {
            assert(q =~~= p);
            assert(stree_has_file(t2, q));
        } else {
            assert(t2.children == t.children);
            assert(q != p);
        }
    } else {
        let pos = insert_pos(t.children, p[0]);
        lemma_insert_pos_bounds(t.children, p[0]);
        let found = pos < t.children.len() && t.children[pos].0 == p[0];
        if q.len() == 0 {
            assert(t2.is_file == t.is_file);
            assert(q != p);
        } else if found {
            let sub = stree_insert(t.children[pos].1, p.drop_first());
            assert(t2.children == t.children.update(pos, (p[0], sub)));
            if q[0] == p[0] {
                // only the child at the insertion position carries this
                // name, before and after
                assert forall|j: int|
                    0 <= j < t.children.len() && (#[trigger] t.children[j]).0
                        == q[0] implies j == pos by {
                    lemma_name_only_at_insert_pos(t.children, p[0], j);
                }
                assert(stree_has_file(t, q) == stree_has_file(
                    t.children[pos].1,
                    q.drop_first(),
                )) by {
                    if stree_has_file(t, q) {
                        let j = choose|j: int|
                            0 <= j < t.children.len() && (#[trigger] t.children[j]).0 == q[0]
                                && stree_has_file(t.children[j].1, q.drop_first());
                        assert(j == pos);
                    }
                }
                assert forall|j: int|
                    0 <= j < t2.children.len() && (#[trigger] t2.children[j]).0
                        == q[0] implies j == pos by {
                    if j != pos {
                        assert(t2.children[j] == t.children[j]);
                        lemma_name_only_at_insert_pos(t.children, p[0], j);
                    }
                }
                assert(stree_has_file(t2, q) == stree_has_file(sub, q.drop_first())) by {
                    if stree_has_file(t2, q) {
                        let j = choose|j: int|
                            0 <= j < t2.children.len() && (#[trigger] t2.children[j]).0 == q[0]
                                && stree_has_file(t2.children[j].1, q.drop_first());
                        assert(j == pos);
                    }
                    if stree_has_file(sub, q.drop_first()) {
                        assert(t2.children[pos].0 == q[0] && stree_has_file(
                            t2.children[pos].1,
                            q.drop_first(),
                        ));
                    }
                }
                lemma_stree_insert_has_file(t.children[pos].1, p.drop_first(), q.drop_first());
                assert((q == p) == (q.drop_first() == p.drop_first())) by {
                    if q.drop_first() == p.drop_first() {
                        assert(q.len() == p.len());
                        assert forall|x: int| 0 <= x < q.len() implies q[x] == p[x] by {
                            if x > 0 {
                                assert(q[x] == q.drop_first()[x - 1]);
                                assert(p[x] == p.drop_first()[x - 1]);
                            }
                        }
                        assert(q =~~= p);
                    }
                }
            } else {
                // a child of another name is untouched
                assert(stree_has_file(t2, q) == stree_has_file(t, q)) by {
                    if stree_has_file(t, q) {
                        let j = choose|j: int|
                            0 <= j < t.children.len() && (#[trigger] t.children[j]).0 == q[0]
                                && stree_has_file(t.children[j].1, q.drop_first());
                        assert(j != pos);
                        assert(t2.children[j] == t.children[j]);
                    }
                    if stree_has_file(t2, q) {
                        let j = choose|j: int|
                            0 <= j < t2.children.len() && (#[trigger] t2.children[j]).0 == q[0]
                                && stree_has_file(t2.children[j].1, q.drop_first());
                        assert(j != pos);
                        assert(t2.children[j] == t.children[j]);
                    }
                }
                assert(q != p);
            }
        } else {
            let sub = stree_insert(stree_empty(), p.drop_first());
            assert(t2.children == t.children.insert(pos, (p[0], sub)));
            if q[0] == p[0] {
                // no child of the old tree carries the inserted name
                assert forall|j: int|
                    0 <= j < t.children.len() implies (#[trigger] t.children[j]).0 != p[0] by {
                    if t.children[j].0 == p[0] {
                        lemma_name_only_at_insert_pos(t.children, p[0], j);
                    }
                }
                assert(!stree_has_file(t, q));
                assert forall|j: int|
                    0 <= j < t2.children.len() && (#[trigger] t2.children[j]).0
                        == q[0] implies j == pos by {
                    if j < pos {
                        assert(t2.children[j] == t.children[j]);
                    } else if j > pos {
                        assert(t2.children[j] == t.children[j - 1]);
                    }
                }
                assert(stree_has_file(t2, q) == stree_has_file(sub, q.drop_first())) by {
                    if stree_has_file(t2, q) {
                        let j = choose|j: int|
                            0 <= j < t2.children.len() && (#[trigger] t2.children[j]).0 == q[0]
                                && stree_has_file(t2.children[j].1, q.drop_first());
                        assert(j == pos);
                    }
                    if stree_has_file(sub, q.drop_first()) {
                        assert(t2.children[pos].0 == q[0] && stree_has_file(
                            t2.children[pos].1,
                            q.drop_first(),
                        ));
                    }
                }
                lemma_stree_insert_has_file(stree_empty(), p.drop_first(), q.drop_first());
                assert(!stree_has_file(stree_empty(), q.drop_first()));
                assert((q == p) == (q.drop_first() == p.drop_first())) by {
                    if q.drop_first() == p.drop_first() {
                        assert(q.len() == p.len());
                        assert forall|x: int| 0 <= x < q.len() implies q[x] == p[x] by {
                            if x > 0 {
                                assert(q[x] == q.drop_first()[x - 1]);
                                assert(p[x] == p.drop_first()[x - 1]);
                            }
                        }
                        assert(q =~~= p);
                    }
                }
            } else {
                assert(stree_has_file(t2, q) == stree_has_file(t, q)) by {
                    if stree_has_file(t, q) {
                        let j = choose|j: int|
                            0 <= j < t.children.len() && (#[trigger] t.children[j]).0 == q[0]
                                && stree_has_file(t.children[j].1, q.drop_first());
                        if j < pos {
                            assert(t2.children[j].0 == q[0] && stree_has_file(
                                t2.children[j].1,
                                q.drop_first(),
                            ));
                        } else {
                            assert(t2.children[j + 1] == t.children[j]);
                            assert(t2.children[j + 1].0 == q[0] && stree_has_file(
                                t2.children[j + 1].1,
                                q.drop_first(),
                            ));
                        }
                    }
                    if stree_has_file(t2, q) {
                        let j = choose|j: int|
                            0 <= j < t2.children.len() && (#[trigger] t2.children[j]).0 == q[0]
                                && stree_has_file(t2.children[j].1, q.drop_first());
                        assert(j != pos);
                        if j < pos {
                            assert(t2.children[j] == t.children[j]);
                        } else {
                            assert(t2.children[j] == t.children[j - 1]);
                        }
                    }
                }
                assert(q != p);
            }
        }
    }
}

/// The tree of a file list stays sorted at every level.
pub proof fn lemma_stree_of_files_sorted(root: Seq<char>, files: Seq<Seq<char>>)
    ensures
        stree_sorted(stree_of_files(root, files)),
    decreases files.len(),
{
    if files.len() == 0 {
    } else {
        lemma_stree_of_files_sorted(root, files.drop_last());
        lemma_stree_insert_sorted(
            stree_of_files(root, files.drop_last()),
            file_node_path(root, files.last()),
        );
    }
}

/// The tree of a file list holds a file path exactly when it is the tree
/// path of one of the files: nothing is lost, nothing is invented.
pub proof fn lemma_stree_of_files_has_file(
    root: Seq<char>,
    files: Seq<Seq<char>>,
    q: Seq<Seq<char>>,
)
    ensures
        stree_has_file(stree_of_files(root, files), q) <==> exists|k: int|
            0 <= k < files.len() && file_node_path(root, #[trigger] files[k]) == q,
    decreases files.len(),
{
    if files.len() == 0 {
        assert(!stree_has_file(stree_empty(), q));
    } else {
        let shorter = files.drop_last();
        lemma_stree_of_files_has_file(root, shorter, q);
        lemma_stree_of_files_sorted(root, shorter);
        lemma_stree_insert_has_file(
            stree_of_files(root, shorter),
            file_node_path(root, files.last()),
            q,
        );
        if stree_has_file(stree_of_files(root, files), q) {
            if file_node_path(root, files.last()) == q {
                assert(file_node_path(root, files[files.len() - 1]) == q);
            } else {
                let k = choose|k: int|
                    0 <= k < shorter.len() && file_node_path(root, #[trigger] shorter[k]) == q;
                assert(file_node_path(root, files[k]) == q);
            }
        }
        if exists|k: int| 0 <= k < files.len() && file_node_path(root, #[trigger] files[k]) == q {
            let k = choose|k: int|
                0 <= k < files.len() && file_node_path(root, #[trigger] files[k]) == q;
            if k < files.len() - 1 {
                assert(file_node_path(root, shorter[k]) == q);
            }
        }
    }
}

/// One node of the printed file tree.
pub struct TreeNode {
    /// The named children, kept in lexicographic order of their names.
    pub children: Vec<(String, TreeNode)>,
    /// Whether a file's path ends at this node.
    pub is_file: bool,
}

/// Whether the executable tree is, node for node, the ghost tree: same
/// marks, same names in the same order, corresponding children.
pub open spec fn corresponds(t: TreeNode, st: SpecTree) -> bool
    decreases t,
{
    &&& t.is_file == st.is_file
    &&& t.children@.len() == st.children.len()
    &&& (forall|i: int|
        0 <= i < t.children@.len() ==> (#[trigger] t.children@[i]).0@ == st.children[i].0
            && corresponds(t.children@[i].1, st.children[i].1))
}

/// `insert_pos` is exactly the length of the leading run of names below the
/// one inserted.
proof fn lemma_insert_pos_of_run(children: Seq<(Seq<char>, SpecTree)>, name: Seq<char>, i: int)
    requires
        0 <= i <= children.len(),
        forall|k: int| 0 <= k < i ==> seq_char_lt(#[trigger] children[k].0, name),
        i == children.len() || !seq_char_lt(children[i].0, name),
    ensures
        insert_pos(children, name) == i,
    decreases children.len(),
{
    if children.len() == 0 {
    } else if i == 0 {
    } else {
        assert(seq_char_lt(children[0].0, name));
        assert forall|k: int| 0 <= k < i - 1 implies seq_char_lt(
            #[trigger] children.drop_first()[k].0,
            name,
        ) by {
            assert(children.drop_first()[k] == children[k + 1]);
        }
        if i - 1 < children.drop_first().len() {
            assert(children.drop_first()[i - 1] == children[i]);
        }
        lemma_insert_pos_of_run(children.drop_first(), name, i - 1);
    }
}

/// Whether `p` is a leading run of `s`, character for character.
fn is_char_prefix(p: &str, s: &str) -> (r: bool)
    requires
        p@.len() <= s@.len(),
    ensures
        r == (s@.subrange(0, p@.len() as int) == p@),
{
    let np = p.unicode_len();
    let mut i: usize = 0;
    loop
        invariant
            i <= np,
            np == p@.len() <= s@.len(),
            forall|k: int| 0 <= k < i ==> p@[k] == s@[k],
        ensures
            i <= np == p@.len(),
            (i == np) == (s@.subrange(0, np as int) == p@),
        decreases np - i,
    {
        if i == np {
            proof {
                assert(s@.subrange(0, np as int) =~= p@);
            }
            break ;
        }
        if p.get_char(i) != s.get_char(i) {
            proof {
                assert(s@.subrange(0, np as int)[i as int] == s@[i as int]);
                assert(s@.subrange(0, np as int) != p@);
            }
            break ;
        }
        i = i + 1;
    }
    i == np
}

/// Strips the traversal root from a file path, as `strip_root_spec`
/// describes.
pub fn strip_root(root: &str, file: &str) -> (r: String)
    ensures
        r@ == strip_root_spec(root@, file@),
{
    let nr = root.unicode_len();
    let nf = file.unicode_len();
    if nr == 0 || nf < nr {
        return file.to_owned();
    }
    if !is_char_prefix(root, file) {
        return file.to_owned();
    }
    let boundary: bool = if nf == nr {
        true
    } else if is_sep_char(root.get_char(nr - 1)) {
        true
    } else {
        is_sep_char(file.get_char(nr))
    };
    if boundary {
        proof {
            assert(root_prefixes(root@, file@));
            assert(file@.subrange(nr as int, nf as int) =~= file@.skip(nr as int));
        }
        file.substring_char(nr, nf).to_owned()
    } else {
        proof {
            assert(!root_prefixes(root@, file@));
        }
        file.to_owned()
    }
}

/// Finds where `name` belongs among the children: the end of the leading run
/// of names below it, as `insert_pos` describes.
fn child_position(children: &Vec<(String, TreeNode)>, name: &String, st: Ghost<SpecTree>) -> (i:
    usize)
    requires
        corresponds(TreeNode { children: *children, is_file: false }, st@)
            || corresponds(TreeNode { children: *children, is_file: true }, st@),
    ensures
        i as int == insert_pos(st@.children, name@),
        i <= children@.len(),
        i < children@.len() ==> !seq_char_lt(children@[i as int].0@, name@),
        forall|k: int| 0 <= k < i ==> seq_char_lt(#[trigger] children@[k].0@, name@),
{
    let n = children.len();
    let mut i: usize = 0;
    loop
        invariant
            i <= n,
            n == children@.len(),
            n == st@.children.len(),
            forall|k: int|
                0 <= k < n ==> (#[trigger] children@[k]).0@ == st@.children[k].0,
            forall|k: int| 0 <= k < i ==> seq_char_lt(#[trigger] children@[k].0@, name@),
        ensures
            i <= n,
            n == children@.len(),
            forall|k: int| 0 <= k < i ==> seq_char_lt(#[trigger] children@[k].0@, name@),
            i == n || !seq_char_lt(children@[i as int].0@, name@),
        decreases n - i,
    {
        if i == n {
            break ;
        }
        if !str_lt(children[i].0.as_str(), name.as_str()) {
            break ;
        }
        i = i + 1;
    }
    proof {
        assert forall|k: int| 0 <= k < i implies seq_char_lt(
            #[trigger] st@.children[k].0,
            name@,
        ) by {
            assert(children@[k].0@ == st@.children[k].0);
        }
        if (i as int) < st@.children.len() {
            assert(st@.children[i as int].0 == children@[i as int].0@);
        }
        lemma_insert_pos_of_run(st@.children, name@, i as int);
    }
    i
}

/// Inserts the path components from position `pos` on into the tree, as
/// `stree_insert` describes on the ghost tree.
fn tree_insert(t: &mut TreeNode, path: &Vec<String>, pos: usize, st: Ghost<SpecTree>)
    requires
        corresponds(*old(t), st@),
        pos <= path@.len(),
    ensures
        corresponds(*final(t), stree_insert(st@, path.deep_view().skip(pos as int))),
    decreases path@.len() - pos,
{
    let ghost goal = stree_insert(st@, path.deep_view().skip(pos as int));
    if pos == path.len() {
        proof {
            assert(path.deep_view().skip(pos as int) =~~= Seq::<Seq<char>>::empty());
        }
        t.is_file = true;
        proof {
            assert(goal == SpecTree { children: st@.children, is_file: true });
            assert(corresponds(*t, goal));
        }
        return ;
    }
    let ghost rest = path.deep_view().skip(pos as int);
    proof {
        assert(rest.len() > 0);
        assert(rest[0] == path.deep_view()[pos as int]);
        assert(rest.drop_first() =~~= path.deep_view().skip(pos as int + 1));
        assert(path.deep_view()[pos as int] == path@[pos as int]@);
    }
    let name = &path[pos];
    let i = child_position(&t.children, name, Ghost(st@));
    let ghost spos = insert_pos(st@.children, name@);
    let found = if i < t.children.len() {
        let eq = t.children[i].0.eq(name);
        eq
    } else {
        false
    };
    if found {
        proof {
            assert(st@.children[i as int].0 == t.children@[i as int].0@);
        }
        let mut pair = t.children.remove(i);
        tree_insert(&mut pair.1, path, pos + 1, Ghost(st@.children[i as int].1));
        let ghost newpair = pair;
        t.children.insert(i, pair);
        proof {
            let sub = stree_insert(st@.children[i as int].1, rest.drop_first());
            assert(goal.children =~~= st@.children.update(i as int, (rest[0], sub)));
            assert(t.children@ =~~= old(t).children@.update(i as int, newpair));
            assert(goal.is_file == st@.is_file);
            assert forall|k: int| 0 <= k < t.children@.len() implies (#[trigger] t.children@[k]).0@
                == goal.children[k].0 && corresponds(t.children@[k].1, goal.children[k].1) by {
                if k != i as int {
                    assert(t.children@[k] == old(t).children@[k]);
                    assert(goal.children[k] == st@.children[k]);
                }
            }
            assert(corresponds(*t, goal));
        }
    } else {
        proof {
            if (i as int) < st@.children.len() {
                assert(st@.children[i as int].0 == t.children@[i as int].0@);
            }
            assert(!(spos < st@.children.len() && st@.children[spos].0 == rest[0]));
        }
        let mut node = TreeNode { children: Vec::new(), is_file: false };
        proof {
            assert(node.children@.len() == 0);
            assert(corresponds(node, stree_empty()));
        }
        tree_insert(&mut node, path, pos + 1, Ghost(stree_empty()));
        let entry = (name.clone(), node);
        let ghost newentry = entry;
        t.children.insert(i, entry);
        proof {
            let sub = stree_insert(stree_empty(), rest.drop_first());
            assert(goal.children =~~= st@.children.insert(spos, (rest[0], sub)));
            assert(t.children@ =~~= old(t).children@.insert(i as int, newentry));
            assert(newentry.0@ == rest[0]);
            assert(corresponds(newentry.1, sub));
            assert forall|k: int| 0 <= k < t.children@.len() implies (#[trigger] t.children@[k]).0@
                == goal.children[k].0 && corresponds(t.children@[k].1, goal.children[k].1) by {
                if k < i as int {
                    assert(t.children@[k] == old(t).children@[k]);
                    assert(goal.children[k] == st@.children[k]);
                } else if k == i as int {
                    assert(t.children@[k] == newentry);
                    assert(goal.children[k] == (rest[0], sub));
                } else {
                    assert(t.children@[k] == old(t).children@[k - 1]);
                    assert(goal.children[k] == st@.children[k - 1]);
                }
            }
            assert(corresponds(*t, goal));
        }
    }
}

/// Builds the file tree of an ordered file list, relative to the root, as
/// `stree_of_files` describes on the ghost tree.
pub fn build_tree(root: &str, files: &Vec<String>) -> (t: TreeNode)
    ensures
        corresponds(t, stree_of_files(root@, files.deep_view())),
{
    let mut t = TreeNode { children: Vec::new(), is_file: false };
    proof {
        assert(t.children@.len() == 0);
        assert(corresponds(t, stree_empty()));
        assert(files.deep_view().take(0) =~~= Seq::<Seq<char>>::empty());
    }
    let mut k: usize = 0;
    while k < files.len()
        invariant
            k <= files.len(),
            corresponds(t, stree_of_files(root@, files.deep_view().take(k as int))),
        decreases files.len() - k,
    {
        let rel = strip_root(root, files[k].as_str());
        let comps = filter_components(path_components(rel.as_str()));
        proof {
            assert(files.deep_view()[k as int] == files@[k as int]@);
            assert(comps.deep_view() == file_node_path(root@, files.deep_view()[k as int]));
        }
        tree_insert(&mut t, &comps, 0, Ghost(stree_of_files(root@, files.deep_view().take(k as int))));
        proof {
            let taken = files.deep_view().take(k as int + 1);
            assert(taken.drop_last() =~~= files.deep_view().take(k as int));
            assert(taken.last() == files.deep_view()[k as int]);
            assert(comps.deep_view().skip(0) =~~= comps.deep_view());
            assert(corresponds(t, stree_of_files(root@, taken)));
        }
        k = k + 1;
    }
    proof {
        assert(files.deep_view().take(files@.len() as int) =~~= files.deep_view());
    }
    t
}

/// The branch drawn before a child's name.
pub open spec fn connector(last: bool) -> Seq<char> {
    if last {
        "└── "@
    } else {
        "├── "@
    }
}

/// What a child's subtree is indented with, under its parent's prefix.
pub open spec fn indent(last: bool) -> Seq<char> {
    if last {
        "    "@
    } else {
        "│   "@
    }
}

/// The rendering of children `k` onward of a ghost tree: each child's line —
/// prefix, branch, name, a slash on a directory — followed by its indented
/// subtree.
pub open spec fn stree_render_from(t: SpecTree, k: int, prefix: Seq<char>) -> Seq<char>
    decreases t, t.children.len() - k,
{
    if k < 0 || k >= t.children.len() {
        Seq::empty()
    } else {
        let name = t.children[k].0;
        let child = t.children[k].1;
        let last = k == t.children.len() - 1;
        let line = prefix + connector(last) + name + (if !child.is_file {
            "/"@
        } else {
            Seq::<char>::empty()
        }) + "\n"@;
        let sub = if child.children.len() > 0 {
            stree_render_from(child, 0, prefix + indent(last))
        } else {
            Seq::<char>::empty()
        };
        line + sub + stree_render_from(t, k + 1, prefix)
    }
}

/// Writes the tree onto `output`, as `stree_render_from` describes for the
/// ghost tree the node corresponds to.
pub fn print_tree(node: &TreeNode, prefix: &str, output: &mut String, st: Ghost<SpecTree>)
    requires
        corresponds(*node, st@),
    ensures
        final(output)@ == old(output)@ + stree_render_from(st@, 0, prefix@),
    decreases *node,
{
    let n = node.children.len();
    let mut i: usize = 0;
    while i < n
        invariant
            i <= n,
            n == node.children@.len(),
            corresponds(*node, st@),
            old(output)@ + stree_render_from(st@, 0, prefix@) == output@ + stree_render_from(
                st@,
                i as int,
                prefix@,
            ),
        decreases n - i,
    {
        proof {
            assert(node.children@[i as int].0@ == st@.children[i as int].0);
            assert(corresponds(node.children@[i as int].1, st@.children[i as int].1));
        }
        let last = i == n - 1;
        output.append(prefix);
        if last {
            output.append("└── ");
        } else {
            output.append("├── ");
        }
        output.append(node.children[i].0.as_str());
        if !node.children[i].1.is_file {
            output.append("/");
        }
        output.append("\n");
        if node.children[i].1.children.len() > 0 {
            let mut new_prefix = prefix.to_owned();
            if last {
                new_prefix.append("    ");
            } else {
                new_prefix.append("│   ");
            }
            print_tree(
                &node.children[i].1,
                new_prefix.as_str(),
                output,
                Ghost(st@.children[i as int].1),
            );
        }
        proof {
            let name = st@.children[i as int].0;
            let child = st@.children[i as int].1;
            let lastg = i as int == st@.children.len() - 1;
            assert(stree_render_from(st@, i as int, prefix@) == (prefix@ + connector(lastg) + name
                + (if !child.is_file {
                "/"@
            } else {
                Seq::<char>::empty()
            }) + "\n"@) + (if child.children.len() > 0 {
                stree_render_from(child, 0, prefix@ + indent(lastg))
            } else {
                Seq::<char>::empty()
            }) + stree_render_from(st@, i as int + 1, prefix@));
            assert(old(output)@ + stree_render_from(st@, 0, prefix@) =~= output@
                + stree_render_from(st@, i as int + 1, prefix@));
        }
        i = i + 1;
    }
    proof {
        assert(stree_render_from(st@, n as int, prefix@) == Seq::<char>::empty());
        assert(final(output)@ =~= old(output)@ + stree_render_from(st@, 0, prefix@));
    }
}

/// The flat listing of the files, one `- ` line each, relative to the root.
pub open spec fn list_lines(root: Seq<char>, files: Seq<Seq<char>>) -> Seq<char>
    decreases files.len(),
{
    if files.len() == 0 {
        Seq::empty()
    } else {
        list_lines(root, files.drop_last()) + "- "@ + format_path_spec(
            strip_root_spec(root, files.last()),
        ) + "\n"@
    }
}

/// Writes the digest's prologue: a flat list or an indented tree of the
/// included files, relative to `root`, or nothing at all.
pub struct FileTreeDecorator {
    /// The traversal root that file paths are made relative to.
    pub root: String,
    /// Which form of prologue to write.
    pub mode: PrologueMode,
}

impl GlobalDecorator for FileTreeDecorator {
    open spec fn prologue_spec(&self, files: Seq<Seq<char>>) -> Option<Seq<char>> {
        match self.mode {
            PrologueMode::Off => None,
            PrologueMode::List => Some(
                "Files included in this digest:\n"@ + list_lines(self.root@, files) + "\n"@,
            ),
            PrologueMode::Tree => Some(
                "File structure:\n"@ + stree_render_from(
                    stree_of_files(self.root@, files),
                    0,
                    Seq::empty(),
                ) + "\n"@,
            ),
        }
    }

    fn prologue(&self, files: &Vec<String>) -> (r: Option<String>) {
        match self.mode {
            PrologueMode::Off => None,
            PrologueMode::List => {
                let mut out = "Files included in this digest:\n".to_owned();
                let mut k: usize = 0;
                proof {
                    assert(files.deep_view().take(0) =~~= Seq::<Seq<char>>::empty());
                }
                while k < files.len()
                    invariant
                        k <= files.len(),
                        out@ == "Files included in this digest:\n"@ + list_lines(
                            self.root@,
                            files.deep_view().take(k as int),
                        ),
                    decreases files.len() - k,
                {
                    let rel = strip_root(self.root.as_str(), files[k].as_str());
                    let fp = format_path(rel.as_str());
                    out.append("- ");
                    out.append(fp.as_str());
                    out.append("\n");
                    proof {
                        let taken = files.deep_view().take(k as int + 1);
                        assert(taken.drop_last() =~~= files.deep_view().take(k as int));
                        assert(taken.last() == files.deep_view()[k as int]);
                        assert(files.deep_view()[k as int] == files@[k as int]@);
                    }
                    k = k + 1;
                }
                proof {
                    assert(files.deep_view().take(files@.len() as int) =~~= files.deep_view());
                }
                out.append("\n");
                Some(out)
            },
            PrologueMode::Tree => {
                let tree = build_tree(self.root.as_str(), files);
                let mut out = "File structure:\n".to_owned();
                proof {
                    reveal_strlit("");
                    assert(""@ =~= Seq::<char>::empty());
                }
                print_tree(
                    &tree,
                    "",
                    &mut out,
                    Ghost(stree_of_files(self.root@, files.deep_view())),
                );
                out.append("\n");
                Some(out)
            },
        }
    }
}

} // verus!
