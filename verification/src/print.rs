use vstd::prelude::*;

use crate::aabb::Aabb;
use crate::coord::Vec2;
use crate::node::NodeExpanded;
use crate::tree::{bbox, desc_hi, desc_lo};
use vstd::string::StringExecFns;
use crate::Bvh;

verus! {

/// The decimal digit `d` as text.
pub open spec fn spec_digit(d: int) -> Seq<char> {
    if d == 0 {
        "0"@
    } else if d == 1 {
        "1"@
    } else if d == 2 {
        "2"@
    } else if d == 3 {
        "3"@
    } else if d == 4 {
        "4"@
    } else if d == 5 {
        "5"@
    } else if d == 6 {
        "6"@
    } else if d == 7 {
        "7"@
    } else if d == 8 {
        "8"@
    } else {
        "9"@
    }
}

/// The decimal rendering of a non-negative number.
pub open spec fn spec_dec(n: int) -> Seq<char>
    decreases n,
{
    if n <= 9 {
        spec_digit(n)
    } else {
        spec_dec(n / 10) + spec_digit(n % 10)
    }
}

/// The decimal rendering of a signed coordinate.
pub open spec fn spec_dec_i16(x: int) -> Seq<char> {
    if x < 0 {
        "-"@ + spec_dec(-x)
    } else {
        spec_dec(x)
    }
}

/// A node index, zero-padded to two digits.
pub open spec fn spec_pad2(n: int) -> Seq<char> {
    if n <= 9 {
        "0"@ + spec_dec(n)
    } else {
        spec_dec(n)
    }
}

/// A point as `[x, y]`.
pub open spec fn spec_point_text(p: Vec2) -> Seq<char> {
    "["@ + spec_dec_i16(p.x as int) + ", "@ + spec_dec_i16(p.y as int) + "]"@
}

/// A payload unit the printer can render.
pub trait PrintUnit: Copy {
    /// The unit's rendering, as seen by specifications.
    spec fn spec_text(&self) -> Seq<char>;

    /// Appends the unit's rendering.
    fn append_to(&self, out: &mut String)
        ensures
            final(out)@ == old(out)@ + self.spec_text(),
    ;
}

impl PrintUnit for u8 {
    open spec fn spec_text(&self) -> Seq<char> {
        spec_dec(*self as int)
    }

    fn append_to(&self, out: &mut String) {
        append_dec(out, *self as u32);
    }
}

impl PrintUnit for u32 {
    open spec fn spec_text(&self) -> Seq<char> {
        spec_dec(*self as int)
    }

    fn append_to(&self, out: &mut String) {
        append_dec(out, *self);
    }
}

/// A payload run as `[u0, u1, ...]`, brackets excluded.
pub open spec fn spec_units_inner<T: PrintUnit>(s: Seq<T>) -> Seq<char>
    decreases s.len(),
{
    if s.len() == 0 {
        Seq::empty()
    } else if s.len() == 1 {
        s[0].spec_text()
    } else {
        spec_units_inner(s.drop_last()) + ", "@ + s.last().spec_text()
    }
}

/// A payload run as `[u0, u1, ...]`, brackets included.
pub open spec fn spec_units_text<T: PrintUnit>(s: Seq<T>) -> Seq<char> {
    "["@ + spec_units_inner(s) + "]"@
}

/// Two spaces of indentation per tree level.
pub open spec fn spec_indent(depth: int) -> Seq<char>
    decreases depth,
{
    if depth <= 0 {
        Seq::empty()
    } else {
        spec_indent(depth - 1) + "  "@
    }
}

/// One rendered leaf line, newline excluded.
pub open spec fn spec_leaf_line<T: PrintUnit>(idx: int, depth: int, p: Vec2, payload: Seq<T>) -> Seq<char> {
    spec_pad2(idx) + "\t"@ + spec_indent(depth) + "Leaf("@ + spec_point_text(p) + " => "@
        + spec_units_text(payload) + ")"@
}

/// One rendered internal line, newline excluded.
pub open spec fn spec_internal_line(idx: int, depth: int, b: Aabb) -> Seq<char> {
    spec_pad2(idx) + "\t"@ + spec_indent(depth) + "Internal("@ + spec_point_text(b.min) + " -> "@
        + spec_point_text(b.max) + ")"@
}

/// The rendering of the subtree at `idx`, each line preceded by its own
/// newline: the right subtree is walked before the left one, as the
/// worklist order of the printer pops it first.
pub open spec fn spec_render_rest<T: PrintUnit>(
    pts: Seq<Vec2>,
    table: Seq<u32>,
    data: Seq<T>,
    np2: int,
    idx: int,
    depth: int,
) -> Seq<char>
    decreases 2 * np2 - idx,
{
    let lo = desc_lo(np2, idx);
    let hi = desc_hi(np2, idx);
    let hic = if hi <= pts.len() {
        hi
    } else {
        pts.len() as int
    };
    if hic <= lo {
        Seq::empty()
    } else if hic == lo + 1 {
        "\n"@ + spec_leaf_line(
            idx,
            depth,
            pts[lo],
            data.subrange(table[lo] as int, table[lo + 1] as int),
        )
    } else if 1 <= idx < np2 {
        "\n"@ + spec_internal_line(idx, depth, bbox(pts, lo, hic)) + spec_render_rest(
            pts,
            table,
            data,
            np2,
            2 * idx + 1,
            depth + 1,
        ) + spec_render_rest(pts, table, data, np2, 2 * idx, depth + 1)
    } else {
        Seq::empty()
    }
}

/// The whole rendered tree: the root line, then the rest of the walk.
pub open spec fn spec_print<T: PrintUnit>(
    pts: Seq<Vec2>,
    table: Seq<u32>,
    data: Seq<T>,
    np2: int,
) -> Seq<char> {
    if pts.len() == 0 {
        Seq::<char>::empty()
    } else if pts.len() == 1 {
        spec_leaf_line(1, 0, pts[0], data.subrange(table[0] as int, table[1] as int))
    } else {
        spec_internal_line(1, 0, bbox(pts, 0, pts.len() as int)) + spec_render_rest(
            pts,
            table,
            data,
            np2,
            3,
            1,
        ) + spec_render_rest(pts, table, data, np2, 2, 1)
    }
}

/// Appends the decimal rendering of `n`.
fn append_dec(out: &mut String, n: u32)
    ensures
        final(out)@ == old(out)@ + spec_dec(n as int),
    decreases n,
{
    if n >= 10 {
        append_dec(out, n / 10);
    }
    let d = n % 10;
    if d == 0 {
        out.append("0");
    } else if d == 1 {
        out.append("1");
    } else if d == 2 {
        out.append("2");
    } else if d == 3 {
        out.append("3");
    } else if d == 4 {
        out.append("4");
    } else if d == 5 {
        out.append("5");
    } else if d == 6 {
        out.append("6");
    } else if d == 7 {
        out.append("7");
    } else if d == 8 {
        out.append("8");
    } else {
        out.append("9");
    }
}

/// Appends the decimal rendering of a signed coordinate.
fn append_dec_i16(out: &mut String, x: i16)
    ensures
        final(out)@ == old(out)@ + spec_dec_i16(x as int),
{
    if x < 0 {
        out.append("-");
        append_dec(out, (-(x as i32)) as u32);
    } else {
        append_dec(out, x as u32);
    }
}

/// Appends a node index, zero-padded to two digits.
fn append_pad2(out: &mut String, n: u32)
    ensures
        final(out)@ == old(out)@ + spec_pad2(n as int),
{
    if n <= 9 {
        out.append("0");
    }
    append_dec(out, n);
}

/// Appends a point as `[x, y]`.
fn append_point(out: &mut String, p: Vec2)
    ensures
        final(out)@ == old(out)@ + spec_point_text(p),
{
    out.append("[");
    append_dec_i16(out, p.x);
    out.append(", ");
    append_dec_i16(out, p.y);
    out.append("]");
}

/// Appends a payload run as `[u0, u1, ...]`.
fn append_units<T: PrintUnit>(out: &mut String, s: &[T])
    ensures
        final(out)@ == old(out)@ + spec_units_text(s@),
{
    out.append("[");
    let ghost base = out@;
    let mut k: usize = 0;
    while k < s.len()
        invariant
            0 <= k <= s@.len(),
            out@ == base + spec_units_inner(s@.take(k as int)),
        decreases s@.len() - k,
    {
        if k > 0 {
            out.append(", ");
        }
        let b = s[k];
        b.append_to(out);
        proof {
            assert(s@.take(k + 1).drop_last() =~= s@.take(k as int));
            assert(s@.take(k + 1).last() == s@[k as int]);
            if k == 0 {
                assert(s@.take(1).len() == 1);
            }
        }
        k = k + 1;
    }
    proof {
        assert(s@.take(s@.len() as int) =~= s@);
    }
    out.append("]");
}

/// Appends two spaces per tree level.
fn append_indent(out: &mut String, depth: u32)
    ensures
        final(out)@ == old(out)@ + spec_indent(depth as int),
{
    let ghost base = out@;
    let mut k: u32 = 0;
    while k < depth
        invariant
            0 <= k <= depth,
            out@ == base + spec_indent(k as int),
        decreases depth - k,
    {
        out.append("  ");
        k = k + 1;
    }
    proof {
        assert(base + spec_indent(0) =~= base);
    }
}


/// Appends one leaf line, newline excluded.
fn append_leaf_line<T: PrintUnit>(out: &mut String, idx: u32, depth: u32, p: Vec2, payload: &[T])
    ensures
        final(out)@ == old(out)@ + spec_leaf_line(idx as int, depth as int, p, payload@),
{
    append_pad2(out, idx);
    out.append("\t");
    append_indent(out, depth);
    out.append("Leaf(");
    append_point(out, p);
    out.append(" => ");
    append_units(out, payload);
    out.append(")");
}

/// Appends one internal line, newline excluded.
fn append_internal_line(out: &mut String, idx: u32, depth: u32, b: Aabb)
    ensures
        final(out)@ == old(out)@ + spec_internal_line(idx as int, depth as int, b),
{
    append_pad2(out, idx);
    out.append("\t");
    append_indent(out, depth);
    out.append("Internal(");
    append_point(out, b.min);
    out.append(" -> ");
    append_point(out, b.max);
    out.append(")");
}

impl<T: PrintUnit> Bvh<Vec<T>> {
    /// Renders the subtree below `idx`, each line preceded by a newline.
    #[verifier::loop_isolation(false)]
    #[verifier::rlimit(100)]
    #[verifier::spinoff_prover]
    fn print_rest(&self, out: &mut String, idx: u32, depth: u32)
        requires
            self.wf(),
            self.leaf_count() >= 1,
            1 <= idx < 2 * crate::tree::pow2ceil(self.leaf_count()),
            idx < self.nodes@.len(),
            depth <= idx,
        ensures
            final(out)@ == old(out)@ + spec_render_rest(
                self.leaf_points(),
                self.leaves@,
                self.data@,
                crate::tree::pow2ceil(self.leaf_count()),
                idx as int,
                depth as int,
            ),
        decreases 2 * crate::tree::pow2ceil(self.leaf_count()) - idx,
    {
        let ghost pts = self.leaf_points();
        let ghost tbl = self.leaves@;
        let ghost nl = self.leaf_count();
        let ghost np2 = crate::tree::pow2ceil(nl);
        proof {
            crate::tree::lemma_pow2ceil(nl);
            crate::tree::lemma_desc_bounds(np2, idx as int);
            crate::tree::lemma_node_class(pts, np2, idx as int);
            assert(self.nodes@[idx as int] == crate::tree::spec_node_at(pts, np2, idx as int));
        }
        let node = self.get_node(idx);
        match node.into_expanded() {
            NodeExpanded::Leaf(leaf) => {
                if leaf.is_invalid() {
                    proof {
                        assert(out@ =~= old(out)@ + spec_render_rest(
                            pts,
                            tbl,
                            self.data@,
                            np2,
                            idx as int,
                            depth as int,
                        ));
                    }
                } else {
                    let ghost lo = desc_lo(np2, idx as int);
                    proof {
                        assert(leaf.point == pts[lo] && leaf.start == lo as u32);
                        assert(tbl[lo] <= tbl[lo + 1] <= tbl[tbl.len() - 1]);
                    }
                    out.append("\n");
                    let ptr = leaf.start;
                    let start = self.leaves[ptr as usize];
                    let end = self.leaves[ptr as usize + 1];
                    let payload = vstd::slice::slice_subrange(
                        self.data.as_slice(),
                        start as usize,
                        end as usize,
                    );
                    append_leaf_line(out, idx, depth, leaf.point, payload);
                    proof {
                        assert(out@ =~= old(out)@ + spec_render_rest(
                            pts,
                            tbl,
                            self.data@,
                            np2,
                            idx as int,
                            depth as int,
                        ));
                    }
                }
            },
            NodeExpanded::Aabb(aabb) => {
                proof {
                    assert(idx < np2);
                    crate::tree::lemma_desc_bounds(np2, 2 * idx as int);
                    crate::tree::lemma_desc_bounds(np2, 2 * idx + 1 as int);
                }
                out.append("\n");
                append_internal_line(out, idx, depth, aabb);
                let right = crate::child_right(idx);
                let left = crate::child_left(idx);
                self.print_rest(out, right, depth + 1);
                self.print_rest(out, left, depth + 1);
                proof {
                    assert(out@ =~= old(out)@ + spec_render_rest(
                        pts,
                        tbl,
                        self.data@,
                        np2,
                        idx as int,
                        depth as int,
                    ));
                }
            },
        }
    }

    /// Renders the tree to one line per node: the node index, indentation
    /// by depth, and either the internal box or the leaf point with its
    /// payload; the right subtree prints before the left one, matching
    /// the worklist order of the walk.
    #[must_use]
    pub fn print(&self) -> (r: String)
        requires
            self.wf(),
        ensures
            r@ == spec_print(
                self.leaf_points(),
                self.leaves@,
                self.data@,
                crate::tree::pow2ceil(self.leaf_count()),
            ),
    {
        let mut output = String::new();
        if self.nodes.len() == 0 {
            proof {
                if self.leaves@.len() != 0 {
                    crate::tree::lemma_pow2ceil(self.leaf_count());
                    assert(false);
                }
                assert(self.leaf_points().len() == 0);
            }
            return output;
        }
        let ghost pts = self.leaf_points();
        let ghost tbl = self.leaves@;
        let ghost nl = self.leaf_count();
        let ghost np2 = crate::tree::pow2ceil(nl);
        proof {
            crate::tree::lemma_pow2ceil(nl);
            crate::tree::lemma_desc_root(np2);
            crate::tree::lemma_node_class(pts, np2, 1);
            assert(self.nodes@[1] == crate::tree::spec_node_at(pts, np2, 1));
        }
        let node = self.get_node(crate::ROOT_IDX);
        match node.into_expanded() {
            NodeExpanded::Leaf(leaf) => {
                proof {
                    assert(nl == 1);
                    assert(leaf.point == pts[0] && leaf.start == 0);
                    assert(tbl[0] <= tbl[1] <= tbl[tbl.len() - 1]);
                }
                let start = self.leaves[0];
                let end = self.leaves[1];
                let payload = vstd::slice::slice_subrange(
                    self.data.as_slice(),
                    start as usize,
                    end as usize,
                );
                append_leaf_line(&mut output, crate::ROOT_IDX, 0, leaf.point, payload);
                proof {
                    assert(output@ =~= spec_print(pts, tbl, self.data@, np2));
                    assert(spec_indent(0) =~= Seq::<char>::empty());
                }
            },
            NodeExpanded::Aabb(aabb) => {
                proof {
                    assert(nl >= 2);
                    crate::tree::lemma_desc_bounds(np2, 2);
                    crate::tree::lemma_desc_bounds(np2, 3);
                }
                append_internal_line(&mut output, crate::ROOT_IDX, 0, aabb);
                self.print_rest(&mut output, 3, 1);
                self.print_rest(&mut output, 2, 1);
                proof {
                    assert(output@ =~= spec_print(pts, tbl, self.data@, np2));
                }
            },
        }
        output
    }
}

} // verus!
