//! The directory tree, drawn with branch glyphs.
use vstd::prelude::*;

verus! {

/// A directory entry as the filesystem lists it: its name, whether it is a
/// directory, and the entries of a directory, sorted by name.
pub struct Entry {
    pub name: String,
    pub is_dir: bool,
    pub children: Vec<Entry>,
}

/// A name that starts with a dot is hidden.
pub open spec fn hidden(name: Seq<char>) -> bool {
    name.len() > 0 && name[0] == '.'
}

/// The glyph of one level: for the entry's own level (`is_leaf`) a branch,
/// else a continuation line or blank, by whether that level still has
/// following siblings.
pub open spec fn glyph(is_leaf: bool, has_next: bool) -> Seq<char> {
    if is_leaf {
        if has_next {
            seq!['├', '─', '─', ' ']
        } else {
            seq!['└', '─', '─', ' ']
        }
    } else {
        if has_next {
            seq!['│', ' ', ' ', ' ']
        } else {
            seq![' ', ' ', ' ', ' ']
        }
    }
}

/// The glyphs of `levels`, the last of which is the entry's own.
pub open spec fn glyphs(levels: Seq<bool>) -> Seq<char>
    decreases levels.len(),
{
    if levels.len() == 0 {
        Seq::empty()
    } else if levels.len() == 1 {
        glyph(true, levels[0])
    } else {
        glyph(false, levels[0]) + glyphs(levels.drop_first())
    }
}

/// The text in front of an entry's name: the top level draws nothing, so
/// the first flag is dropped.
pub open spec fn prefix_text(prefix: Seq<bool>) -> Seq<char> {
    if prefix.len() == 0 {
        Seq::empty()
    } else {
        glyphs(prefix.drop_first())
    }
}

#[via_fn]
proof fn tree_decreases(children: Seq<Entry>, parent: Seq<bool>) {
    if children.len() > 0 {
        assert(decreases_to!(children => children[0]));
        assert(decreases_to!(children[0].children => children[0].children@));
        assert(decreases_to!(children => children.subrange(1, children.len() as int)));
    }
}

/// Some entry of `rest` is not hidden: the entry before them is not the
/// last visible one of its directory.
pub open spec fn visible_after(rest: Seq<Entry>) -> bool {
    exists|j: int| 0 <= j < rest.len() && !hidden(#[trigger] rest[j].name@)
}

/// What the tree below `parent` shows, in order: for each visible entry of
/// `children`, the flags of its levels and its name, followed by the same
/// for its own entries if it is a directory. The flag of an entry's own
/// level says whether a visible sibling follows it.
pub open spec fn tree_items(children: Seq<Entry>, parent: Seq<bool>) -> Seq<(Seq<bool>, Seq<char>)>
    decreases children,
    via tree_decreases
{
    if children.len() == 0 {
        Seq::empty()
    } else {
        let c = children[0];
        let rest = children.subrange(1, children.len() as int);
        if hidden(c.name@) {
            tree_items(rest, parent)
        } else {
            let p = parent.push(visible_after(rest));
            let own = seq![(p, c.name@)];
            if c.is_dir {
                own + tree_items(c.children@, p) + tree_items(rest, parent)
            } else {
                own + tree_items(rest, parent)
            }
        }
    }
}

/// The line of an item of the tree: its prefix, its name and a newline.
pub open spec fn line_of(item: (Seq<bool>, Seq<char>)) -> Seq<char> {
    prefix_text(item.0) + item.1 + seq!['\n']
}

/// The lines of the items, in order.
pub open spec fn lines_of(items: Seq<(Seq<bool>, Seq<char>)>) -> Seq<Seq<char>> {
    items.map_values(|item: (Seq<bool>, Seq<char>)| line_of(item))
}

/// The lines of the tree below `parent`.
pub open spec fn tree_lines(children: Seq<Entry>, parent: Seq<bool>) -> Seq<Seq<char>> {
    lines_of(tree_items(children, parent))
}

proof fn lemma_lines_of_concat(a: Seq<(Seq<bool>, Seq<char>)>, b: Seq<(Seq<bool>, Seq<char>)>)
    ensures
        lines_of(a + b) == lines_of(a) + lines_of(b),
{
    assert(lines_of(a + b) =~= lines_of(a) + lines_of(b));
}

/// The text in front of an entry's name, for the flags of its ancestors'
/// levels and its own.
pub fn render_prefix(prefix: &Vec<bool>) -> (r: String)
    ensures
        r@ == prefix_text(prefix@),
{
    let mut result = String::new();
    let n = prefix.len();
    if n == 0 {
        return result;
    }
    let mut j: usize = 1;
    while j < n
        invariant
            n == prefix@.len(),
            1 <= j <= n,
            prefix_text(prefix@) == result@ + glyphs(prefix@.skip(j as int)),
        decreases n - j,
    {
        let levels = Ghost(prefix@.skip(j as int));
        let is_leaf = j + 1 == n;
        let level_has_next = prefix[j];
        let snippet = if is_leaf {
            if level_has_next {
                "├── "
            } else {
                "└── "
            }
        } else {
            if level_has_next {
                "│   "
            } else {
                "    "
            }
        };
        proof {
            reveal_strlit("├── ");
            reveal_strlit("└── ");
            reveal_strlit("│   ");
            reveal_strlit("    ");
            assert(snippet@ =~= glyph(is_leaf, level_has_next));
            assert(levels@.drop_first() =~= prefix@.skip(j + 1));
        }
        result.push_str(snippet);
        j = j + 1;
        proof {
            if is_leaf {
                assert(prefix@.skip(j as int) =~= Seq::<bool>::empty());
            }
        }
        assert(prefix_text(prefix@) =~= result@ + glyphs(prefix@.skip(j as int)));
    }
    assert(prefix@.skip(j as int) =~= Seq::<bool>::empty());
    assert(result@ + Seq::<char>::empty() =~= result@);
    result
}

/// Whether `name` starts with a dot.
pub fn is_hidden(name: &String) -> (r: bool)
    ensures
        r == hidden(name@),
{
    name.as_str().unicode_len() > 0 && name.as_str().get_char(0) == '.'
}

pub open spec fn lines_view(lines: Seq<String>) -> Seq<Seq<char>> {
    lines.map_values(|l: String| l@)
}

/// Whether an entry after entry `i` of `children` is not hidden.
fn visible_after_index(children: &Vec<Entry>, i: usize) -> (r: bool)
    requires
        i < children@.len(),
    ensures
        r == visible_after(children@.subrange(i + 1, children@.len() as int)),
{
    let ghost rest = children@.subrange(i + 1, children@.len() as int);
    assert(children@.len() == children.len());
    let mut j: usize = i + 1;
    while j < children.len()
        invariant
            i + 1 <= j <= children@.len(),
            rest == children@.subrange(i + 1, children@.len() as int),
            forall|m: int| 0 <= m < j - (i + 1) ==> hidden(#[trigger] rest[m].name@),
        decreases children.len() - j,
    {
        if !is_hidden(&children[j].name) {
            assert(!hidden(rest[j - (i + 1)].name@));
            return true;
        }
        assert(rest[j - (i + 1)] == children@[j as int]);
        j = j + 1;
    }
    false
}

/// The lines of the tree below `parent_prefix`, each ending in a newline
/// (see `tree_lines`).
pub fn output_children(children: &Vec<Entry>, parent_prefix: &Vec<bool>) -> (r: Vec<String>)
    ensures
        lines_view(r@) == tree_lines(children@, parent_prefix@),
    decreases children@,
{
    let mut out: Vec<String> = Vec::new();
    let n = children.len();
    let mut i: usize = 0;
    assert(children@.subrange(0, n as int) =~= children@);
    assert(lines_view(out@) =~= Seq::<Seq<char>>::empty());
    assert(Seq::<Seq<char>>::empty() + tree_lines(children@, parent_prefix@) =~= tree_lines(
        children@,
        parent_prefix@,
    ));
    while i < n
        invariant
            n == children@.len(),
            i <= n,
            tree_lines(children@, parent_prefix@) == lines_view(out@) + tree_lines(
                children@.subrange(i as int, n as int),
                parent_prefix@,
            ),
        decreases n - i,
    {
        let child = &children[i];
        let ghost rest_now = children@.subrange(i as int, n as int);
        let ghost rest_next = children@.subrange(i + 1, n as int);
        assert(rest_now.subrange(1, rest_now.len() as int) =~= rest_next);
        assert(rest_now[0] == *child);
        let ghost p = parent_prefix@.push(visible_after(rest_next));
        let ghost own_item = seq![(p, child.name@)];
        let ghost own = seq![prefix_text(p) + child.name@ + seq!['\n']];
        proof {
            assert(lines_of(own_item) =~= own);
            lemma_lines_of_concat(own_item, tree_items(child.children@, p));
            lemma_lines_of_concat(
                own_item + tree_items(child.children@, p),
                tree_items(rest_next, parent_prefix@),
            );
            lemma_lines_of_concat(own_item, tree_items(rest_next, parent_prefix@));
        }
        assert(tree_lines(rest_now, parent_prefix@) == if hidden(child.name@) {
            tree_lines(rest_next, parent_prefix@)
        } else if child.is_dir {
            own + tree_lines(child.children@, p) + tree_lines(rest_next, parent_prefix@)
        } else {
            own + tree_lines(rest_next, parent_prefix@)
        });
        if !is_hidden(&child.name) {
            let mut child_prefix = parent_prefix.clone();
            child_prefix.push(visible_after_index(children, i));
            assert(child_prefix@ == p);
            let mut line = render_prefix(&child_prefix);
            line.push_str(child.name.as_str());
            line.push('\n');
            assert(line@ =~= prefix_text(p) + child.name@ + seq!['\n']);
            assert(seq![line@] =~= own);
            let ghost before = out@;
            out.push(line);
            assert(lines_view(out@) =~= lines_view(before).push(line@));
            if child.is_dir {
                proof {
                    assert(decreases_to!(children@ => children@[i as int]));
                }
                let grand_children = output_children(&child.children, &child_prefix);
                let ghost mid = out@;
                let mut k: usize = 0;
                while k < grand_children.len()
                    invariant
                        k <= grand_children@.len(),
                        lines_view(out@) == lines_view(mid) + lines_view(grand_children@.take(k as int)),
                    decreases grand_children.len() - k,
                {
                    let ghost b = out@;
                    out.push(grand_children[k].clone());
                    assert(lines_view(grand_children@.take(k + 1)) =~= lines_view(grand_children@.take(k as int)).push(grand_children@[k as int]@));
                    assert(lines_view(out@) =~= lines_view(b).push(grand_children@[k as int]@));
                    k = k + 1;
                }
                assert(grand_children@.take(k as int) =~= grand_children@);
            }
        }
        i = i + 1;
        assert(tree_lines(children@, parent_prefix@) =~= lines_view(out@) + tree_lines(
            children@.subrange(i as int, n as int),
            parent_prefix@,
        ));
    }
    assert(children@.subrange(n as int, n as int) =~= Seq::<Entry>::empty());
    assert(lines_view(out@) + Seq::<Seq<char>>::empty() =~= lines_view(out@));
    out
}

/// The lines of the tree of `children`, the entries of a listed directory.
pub fn render_tree(children: &Vec<Entry>) -> (r: Vec<String>)
    ensures
        lines_view(r@) == tree_lines(children@, Seq::empty()),
{
    let top: Vec<bool> = Vec::new();
    output_children(children, &top)
}

proof fn lemma_concat_index<A>(a: Seq<A>, b: Seq<A>, j: int)
    requires
        0 <= j < a.len() + b.len(),
    ensures
        j < a.len() ==> (a + b)[j] == a[j],
        j >= a.len() ==> (a + b)[j] == b[j - a.len()],
{
}

/// No item of the tree is hidden: entries whose name starts with a dot never
/// appear, and neither does anything below them.
pub proof fn lemma_hidden_never_shown(children: Seq<Entry>, parent: Seq<bool>)
    ensures
        forall|j: int|
            0 <= j < tree_items(children, parent).len() ==> !hidden(
                #[trigger] tree_items(children, parent)[j].1,
            ),
    decreases children,
{
    if children.len() > 0 {
        let c = children[0];
        let rest = children.subrange(1, children.len() as int);
        assert(decreases_to!(children => children[0]));
        assert(decreases_to!(children[0].children => children[0].children@));
        assert(decreases_to!(children => rest));
        lemma_hidden_never_shown(rest, parent);
        if hidden(c.name@) {
            assert(tree_items(children, parent) == tree_items(rest, parent));
        } else {
            let p = parent.push(visible_after(rest));
            let own = seq![(p, c.name@)];
            let items = tree_items(children, parent);
            if c.is_dir {
                lemma_hidden_never_shown(c.children@, p);
                let a = own + tree_items(c.children@, p);
                assert(items == a + tree_items(rest, parent));
                assert forall|j: int| 0 <= j < items.len() implies !hidden(
                    #[trigger] items[j].1,
                ) by {
                    lemma_concat_index(a, tree_items(rest, parent), j);
                    if j < a.len() {
                        lemma_concat_index(own, tree_items(c.children@, p), j);
                    }
                }
            } else {
                assert(items == own + tree_items(rest, parent));
                assert forall|j: int| 0 <= j < items.len() implies !hidden(
                    #[trigger] items[j].1,
                ) by {
                    lemma_concat_index(own, tree_items(rest, parent), j);
                }
            }
        }
    }
}

} // verus!
