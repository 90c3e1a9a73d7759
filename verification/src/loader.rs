//! The graph loader: from the text of a graph to a [`Graph`].
//!
//! Both formats are made of lines. A line that starts with `#` is a comment.
//! Any other line holds unsigned decimal numbers separated by blanks; a
//! line is ended by a line feed or by the end of the text.
//!
//! An edge list holds one edge per line, as the ids of its two vertices. The
//! ids count from 1; the graph has as many vertices as the largest id says,
//! numbered from 0, all with the label 0.
//!
//! The attributed format holds, whatever the lines, the number `n` of
//! vertices; then for each vertex, in order, its id, which counts from 0, and
//! its attribute, which becomes its label; then for each vertex, in order,
//! the number of the arcs that leave it and each of these arcs as the id of
//! the vertex and the id of the vertex that the arc enters:
//!
//! ```text
//! # Number of nodes
//! 2
//! # Node attributes
//! 0 7
//! 1 9
//! # Edges coming out of node 0
//! 1
//! 0 1
//! # Edges coming out of node 1
//! 0
//! ```

use vstd::prelude::*;
use vstd::slice::*;
use vstd::string::StringSliceAdditionalSpecFns;
use crate::error::VF3Error;
use crate::graph::{ints, Graph, GraphView};
use crate::options::GraphFormat;

verus! {

/// Whether the byte is a blank: a space, a tab or a carriage return.
pub open spec fn is_blank(b: u8) -> bool {
    b == 32 || b == 9 || b == 13
}

/// Whether the byte is a decimal digit.
pub open spec fn is_digit(b: u8) -> bool {
    48 <= b <= 57
}

/// The index at which the line that holds index `i` ends: that of the next
/// line feed, or the length of the text.
pub open spec fn line_end(b: Seq<u8>, i: int) -> int
    decreases b.len() - i,
{
    if i < 0 || i >= b.len() || b[i] == 10 {
        i
    } else {
        line_end(b, i + 1)
    }
}

/// The index at which the run of digits that starts at `i` ends, before `end`.
pub open spec fn digits_end(b: Seq<u8>, i: int, end: int) -> int
    decreases end - i,
{
    if i < 0 || i >= end || !is_digit(b[i]) {
        i
    } else {
        digits_end(b, i + 1, end)
    }
}

/// The number that the digits of `b` from `i` to `j` spell.
pub open spec fn decimal(b: Seq<u8>, i: int, j: int) -> int
    decreases j - i,
{
    if j <= i {
        0
    } else {
        decimal(b, i, j - 1) * 10 + (b[j - 1] - 48)
    }
}

/// Where a run of digits ends, and that it holds digits only.
pub proof fn lemma_digits_end(b: Seq<u8>, i: int, end: int)
    requires
        0 <= i <= end,
    ensures
        i <= digits_end(b, i, end) <= end,
        forall|m: int| i <= m < digits_end(b, i, end) ==> is_digit(#[trigger] b[m]),
        i < end && is_digit(b[i]) ==> i < digits_end(b, i, end),
    decreases end - i,
{
    if i < end && is_digit(b[i]) {
        lemma_digits_end(b, i + 1, end);
    }
}

/// More digits spell no smaller a number.
pub proof fn lemma_decimal_grows(b: Seq<u8>, i: int, k: int, j: int)
    requires
        i <= k <= j,
        forall|m: int| i <= m < j ==> is_digit(#[trigger] b[m]),
    ensures
        0 <= decimal(b, i, k) <= decimal(b, i, j),
    decreases j - i,
{
    if i < j {
        if k == j {
            lemma_decimal_grows(b, i, k - 1, j - 1);
        } else {
            lemma_decimal_grows(b, i, k, j - 1);
        }
        assert(is_digit(b[j - 1]));
    }
}

/// A parse that goes on after what was read so far.
pub open spec fn followed_by<T>(head: Seq<T>, tail: Option<Seq<T>>) -> Option<Seq<T>> {
    match tail {
        Some(rest) => Some(head + rest),
        None => None,
    }
}

/// The numbers that stand between `i` and `end`, or `None` where something
/// else stands there: a byte that is neither blank nor digit, a number with
/// anything but a blank behind it, or a number over the machine's range.
pub open spec fn numbers(b: Seq<u8>, i: int, end: int) -> Option<Seq<int>>
    decreases end - i,
{
    if i < 0 || i >= end {
        Some(Seq::empty())
    } else if is_blank(b[i]) {
        numbers(b, i + 1, end)
    } else if is_digit(b[i]) {
        let j = digits_end(b, i, end);
        let v = decimal(b, i, j);
        if j <= i || j > end || v > usize::MAX || (j < end && !is_blank(b[j])) {
            None
        } else {
            followed_by(seq![v], numbers(b, j, end))
        }
    } else {
        None
    }
}

/// The numbers of the line from `i` to `end`; none for a comment.
pub open spec fn row(b: Seq<u8>, i: int, end: int) -> Option<Seq<int>> {
    if i < end && b[i] == 35 {
        Some(Seq::empty())
    } else {
        numbers(b, i, end)
    }
}

/// The rows of the lines from index `i` on, or `None` where a line is malformed.
pub open spec fn rows(b: Seq<u8>, i: int) -> Option<Seq<Seq<int>>>
    decreases b.len() - i,
{
    if i < 0 || i >= b.len() {
        Some(Seq::empty())
    } else {
        let end = line_end(b, i);
        match row(b, i, end) {
            None => None,
            Some(r) => followed_by(
                seq![r],
                if end < i || end >= b.len() {
                    Some(Seq::empty())
                } else {
                    rows(b, end + 1)
                },
            ),
        }
    }
}

/// The rows of `kept` as sequences of integers.
pub open spec fn rows_view(kept: Seq<Vec<usize>>) -> Seq<Seq<int>> {
    Seq::new(kept.len(), |k: int| ints(kept[k]@))
}

/// Finds the end of the line that starts at `i`.
fn find_line_end(bytes: &[u8], i: usize) -> (end: usize)
    requires
        i <= bytes.len(),
    ensures
        end == line_end(bytes@, i as int),
        i <= end <= bytes.len(),
{
    let mut k = i;
    while k < bytes.len() && bytes[k] != 10
        invariant
            i <= k <= bytes.len(),
            line_end(bytes@, i as int) == line_end(bytes@, k as int),
        decreases bytes.len() - k,
    {
        k += 1;
    }
    k
}

/// Reads the number whose first digit stands at `i`.
fn read_number(bytes: &[u8], i: usize, end: usize) -> (out: Option<(usize, usize)>)
    requires
        i < end <= bytes.len(),
        is_digit(bytes@[i as int]),
    ensures
        match out {
            Some((value, stop)) => {
                &&& stop == digits_end(bytes@, i as int, end as int)
                &&& value == decimal(bytes@, i as int, stop as int)
                &&& i < stop <= end
            },
            None => decimal(bytes@, i as int, digits_end(bytes@, i as int, end as int))
                > usize::MAX,
        },
{
    let mut k = i;
    let mut v: usize = 0;
    proof {
        lemma_digits_end(bytes@, i as int, end as int);
    }
    while k < end && bytes[k] >= 48 && bytes[k] <= 57
        invariant
            i <= k <= end <= bytes.len(),
            digits_end(bytes@, i as int, end as int) == digits_end(bytes@, k as int, end as int),
            v == decimal(bytes@, i as int, k as int),
            forall|m: int| i <= m < k ==> is_digit(#[trigger] bytes@[m]),
        decreases end - k,
    {
        let digit = (bytes[k] - 48) as usize;
        if v > (usize::MAX - digit) / 10 {
            proof {
                let j = digits_end(bytes@, i as int, end as int);
                lemma_digits_end(bytes@, k as int, end as int);
                lemma_digits_end(bytes@, i as int, end as int);
                lemma_decimal_grows(bytes@, i as int, k + 1, j);
                assert(decimal(bytes@, i as int, k + 1) == v * 10 + digit);
            }
            return None;
        }
        v = v * 10 + digit;
        k += 1;
    }
    Some((v, k))
}

/// Reads the numbers of the line from `i` to `end`.
fn read_row(bytes: &[u8], i: usize, end: usize) -> (out: Option<Vec<usize>>)
    requires
        i <= end <= bytes.len(),
    ensures
        match out {
            Some(r) => row(bytes@, i as int, end as int) == Some(ints(r@)),
            None => row(bytes@, i as int, end as int) is None,
        },
{
    let mut acc: Vec<usize> = Vec::new();
    assert(ints(acc@) =~= Seq::<int>::empty());
    if i < end && bytes[i] == 35 {
        return Some(acc);
    }
    let mut k = i;
    assert(Seq::<int>::empty() + Seq::<int>::empty() =~= Seq::<int>::empty());
    while k < end
        invariant
            i <= k <= end <= bytes.len(),
            !(i < end && bytes@[i as int] == 35),
            numbers(bytes@, i as int, end as int) == followed_by(
                ints(acc@),
                numbers(bytes@, k as int, end as int),
            ),
        decreases end - k,
    {
        let c = bytes[k];
        if c == 32 || c == 9 || c == 13 {
            k += 1;
        } else if c >= 48 && c <= 57 {
            match read_number(bytes, k, end) {
                None => {
                    return None;
                },
                Some((v, j)) => {
                    if j < end && !(bytes[j] == 32 || bytes[j] == 9 || bytes[j] == 13) {
                        return None;
                    }
                    let ghost before = ints(acc@);
                    acc.push(v);
                    proof {
                        let tail = numbers(bytes@, j as int, end as int);
                        assert(ints(acc@) =~= before + seq![v as int]);
                        if tail is Some {
                            assert(before + (seq![v as int] + tail->0) =~= ints(acc@) + tail->0);
                        }
                    }
                    k = j;
                },
            }
        } else {
            return None;
        }
    }
    proof {
        assert(ints(acc@) + Seq::<int>::empty() =~= ints(acc@));
    }
    Some(acc)
}

/// Reads the rows of a text: one row of numbers per line, empty for a
/// comment. `None` where a line holds anything but blanks and numbers that
/// the machine can hold.
pub fn scan(bytes: &[u8]) -> (out: Option<Vec<Vec<usize>>>)
    ensures
        match out {
            Some(found) => rows(bytes@, 0) == Some(rows_view(found@)),
            None => rows(bytes@, 0) is None,
        },
{
    let mut acc: Vec<Vec<usize>> = Vec::new();
    let mut i: usize = 0;
    proof {
        assert(rows_view(acc@) =~= Seq::<Seq<int>>::empty());
        let tail = rows(bytes@, 0);
        if tail is Some {
            assert(Seq::<Seq<int>>::empty() + tail->0 =~= tail->0);
        }
    }
    while i < bytes.len()
        invariant
            i <= bytes.len(),
            rows(bytes@, 0) == followed_by(rows_view(acc@), rows(bytes@, i as int)),
        decreases bytes.len() - i,
    {
        let end = find_line_end(bytes, i);
        match read_row(bytes, i, end) {
            None => {
                return None;
            },
            Some(r) => {
                let ghost before = rows_view(acc@);
                acc.push(r);
                proof {
                    let tail = if end >= bytes.len() {
                        Some(Seq::<Seq<int>>::empty())
                    } else {
                        rows(bytes@, end + 1)
                    };
                    assert(rows_view(acc@) =~= before + seq![ints(r@)]);
                    if tail is Some {
                        assert(before + (seq![ints(r@)] + tail->0) =~= rows_view(acc@) + tail->0);
                    }
                }
            },
        }
        if end == bytes.len() {
            i = end;
        } else {
            i = end + 1;
        }
    }
    proof {
        assert(rows_view(acc@) + Seq::<Seq<int>>::empty() =~= rows_view(acc@));
    }
    Some(acc)
}

/// Every row of an edge list is empty or holds the two one-based ids of an edge.
pub open spec fn edge_rows_ok(rs: Seq<Seq<int>>) -> bool {
    forall|r: int|
        0 <= r < rs.len() ==> (#[trigger] rs[r]).len() == 0 || (rs[r].len() == 2 && rs[r][0] >= 1
            && rs[r][1] >= 1)
}

/// The largest id in the first `upto` rows of an edge list; 0 if there is none.
pub open spec fn max_id(rs: Seq<Seq<int>>, upto: int) -> int
    decreases upto,
{
    if upto <= 0 {
        0
    } else {
        let m = max_id(rs, upto - 1);
        let r = rs[upto - 1];
        if r.len() != 2 {
            m
        } else if r[0] >= m && r[0] >= r[1] {
            r[0]
        } else if r[1] >= m {
            r[1]
        } else {
            m
        }
    }
}

/// The arcs of the first `upto` rows of an edge list, with zero-based ids.
pub open spec fn edge_list_arcs(rs: Seq<Seq<int>>, upto: int) -> Set<(int, int)> {
    Set::new(
        |e: (int, int)|
            exists|r: int|
                0 <= r < upto && (#[trigger] rs[r]).len() == 2 && e == (rs[r][0] - 1, rs[r][1] - 1),
    )
}

/// The graph of an edge list: as many vertices as the largest id says, all
/// with label 0, and one arc per row.
pub open spec fn edge_list_graph(rs: Seq<Seq<int>>) -> GraphView {
    GraphView {
        labels: Seq::new(max_id(rs, rs.len() as int) as nat, |i: int| 0u32),
        edges: edge_list_arcs(rs, rs.len() as int),
    }
}

/// No id of the first `upto` rows is above their largest id.
pub proof fn lemma_max_id(rs: Seq<Seq<int>>, upto: int, r: int)
    requires
        0 <= r < upto,
        rs[r].len() == 2,
    ensures
        rs[r][0] <= max_id(rs, upto),
        rs[r][1] <= max_id(rs, upto),
        max_id(rs, upto) >= 0,
    decreases upto,
{
    lemma_max_id_grows(rs, upto);
    if r < upto - 1 {
        lemma_max_id(rs, upto - 1, r);
    }
}

/// The largest id of more rows is no smaller.
pub proof fn lemma_max_id_grows(rs: Seq<Seq<int>>, upto: int)
    ensures
        max_id(rs, upto) >= 0,
        max_id(rs, upto) >= max_id(rs, upto - 1),
    decreases upto,
{
    if upto > 0 {
        lemma_max_id_grows(rs, upto - 1);
    }
}

/// The numbers of the first `upto` rows, one after the other.
pub open spec fn flatten(rs: Seq<Seq<int>>, upto: int) -> Seq<int>
    decreases upto,
{
    if upto <= 0 {
        Seq::empty()
    } else {
        flatten(rs, upto - 1) + rs[upto - 1]
    }
}

/// The id that the legacy format gives for vertex `i`.
pub open spec fn id_at(nums: Seq<int>, i: int) -> int {
    nums[1 + 2 * i]
}

/// The attribute that the legacy format gives for vertex `i`.
pub open spec fn attr_at(nums: Seq<int>, i: int) -> int {
    nums[2 + 2 * i]
}

/// The source of the `k`-th arc of the block that starts at `pos`.
pub open spec fn arc_source(nums: Seq<int>, pos: int, k: int) -> int {
    nums[pos + 1 + 2 * k]
}

/// The destination of the `k`-th arc of the block that starts at `pos`.
pub open spec fn arc_dest(nums: Seq<int>, pos: int, k: int) -> int {
    nums[pos + 2 + 2 * k]
}

/// The head of the legacy format is in order: the number of vertices, then
/// for each vertex its id, which is its rank, and its attribute.
pub open spec fn legacy_header_ok(nums: Seq<int>) -> bool {
    &&& nums.len() >= 1
    &&& nums[0] >= 0
    &&& 1 + 2 * nums[0] <= nums.len()
    &&& forall|i: int|
        0 <= i < nums[0] ==> #[trigger] id_at(nums, i) == i && 0 <= attr_at(nums, i) <= u32::MAX
}

/// The block of vertex `i` at `pos` is in order: the number of its arcs,
/// then each arc as the vertex itself and a vertex of the graph.
pub open spec fn block_ok(nums: Seq<int>, pos: int, i: int, n: int) -> bool {
    &&& 0 <= pos < nums.len()
    &&& nums[pos] >= 0
    &&& pos + 1 + 2 * nums[pos] <= nums.len()
    &&& forall|k: int|
        0 <= k < nums[pos] ==> #[trigger] arc_source(nums, pos, k) == i && 0 <= arc_dest(
            nums,
            pos,
            k,
        ) < n
}

/// The blocks of the vertices from `i` on are in order and end where the
/// numbers end.
pub open spec fn blocks_ok(nums: Seq<int>, pos: int, i: int, n: int) -> bool
    decreases n - i,
{
    if i >= n {
        pos == nums.len()
    } else {
        block_ok(nums, pos, i, n) && blocks_ok(nums, pos + 1 + 2 * nums[pos], i + 1, n)
    }
}

/// The first `upto` arcs of the block of vertex `i` at `pos`.
pub open spec fn block_arcs(nums: Seq<int>, pos: int, i: int, upto: int) -> Set<(int, int)> {
    Set::new(
        |e: (int, int)| e.0 == i && exists|k: int| 0 <= k < upto && #[trigger] arc_dest(nums, pos, k) == e.1,
    )
}

/// The arcs of the blocks of the vertices from `i` on.
pub open spec fn blocks_arcs(nums: Seq<int>, pos: int, i: int, n: int) -> Set<(int, int)>
    decreases n - i,
{
    if i >= n {
        Set::empty()
    } else {
        block_arcs(nums, pos, i, nums[pos]).union(
            blocks_arcs(nums, pos + 1 + 2 * nums[pos], i + 1, n),
        )
    }
}

/// The numbers are a graph in the legacy format.
pub open spec fn legacy_ok(nums: Seq<int>) -> bool {
    legacy_header_ok(nums) && blocks_ok(nums, 1 + 2 * nums[0], 0, nums[0])
}

/// The graph that the numbers stand for in the legacy format.
pub open spec fn legacy_graph(nums: Seq<int>) -> GraphView {
    GraphView {
        labels: Seq::new(nums[0] as nat, |i: int| attr_at(nums, i) as u32),
        edges: blocks_arcs(nums, 1 + 2 * nums[0], 0, nums[0]),
    }
}

/// The graph that the rows stand for in the given format, if they are in order.
pub open spec fn graph_of_rows(rs: Seq<Seq<int>>, format: GraphFormat) -> Option<GraphView> {
    match format {
        GraphFormat::EdgeList => if edge_rows_ok(rs) {
            Some(edge_list_graph(rs))
        } else {
            None
        },
        GraphFormat::VFLegacy => if legacy_ok(flatten(rs, rs.len() as int)) {
            Some(legacy_graph(flatten(rs, rs.len() as int)))
        } else {
            None
        },
    }
}

/// The graph that a text stands for: its rows read in the given format, with
/// every arc accompanied by its opposite where the graph is undirected.
/// `None` where the text is malformed.
pub open spec fn parse(text: Seq<u8>, format: GraphFormat, undirected: bool) -> Option<GraphView> {
    match rows(text, 0) {
        None => None,
        Some(rs) => match graph_of_rows(rs, format) {
            None => None,
            Some(g) => Some(
                if undirected {
                    g.symmetrized()
                } else {
                    g
                },
            ),
        },
    }
}

/// Builds the graph of an edge list.
pub fn edge_list(rs: &Vec<Vec<usize>>) -> (out: Option<Graph>)
    ensures
        match out {
            Some(g) => edge_rows_ok(rows_view(rs@)) && g.wf() && g@ == edge_list_graph(
                rows_view(rs@),
            ),
            None => !edge_rows_ok(rows_view(rs@)),
        },
{
    let ghost view = rows_view(rs@);
    let mut n: usize = 0;
    let mut r: usize = 0;
    while r < rs.len()
        invariant
            view == rows_view(rs@),
            r <= rs.len(),
            n == max_id(view, r as int),
            forall|q: int|
                0 <= q < r ==> (#[trigger] view[q]).len() == 0 || (view[q].len() == 2 && view[q][0]
                    >= 1 && view[q][1] >= 1),
        decreases rs.len() - r,
    {
        let row = &rs[r];
        assert(view[r as int] == ints(row@));
        if row.len() != 0 {
            if row.len() != 2 || row[0] == 0 || row[1] == 0 {
                assert(!(view[r as int].len() == 0 || (view[r as int].len() == 2 && view[r as int][0]
                    >= 1 && view[r as int][1] >= 1)));
                return None;
            }
            if row[0] >= n && row[0] >= row[1] {
                n = row[0];
            } else if row[1] >= n {
                n = row[1];
            }
        }
        r += 1;
    }
    let mut labels: Vec<u32> = Vec::new();
    let mut i: usize = 0;
    while i < n
        invariant
            i <= n,
            labels.len() == i,
            forall|j: int| 0 <= j < i ==> labels[j] == 0u32,
        decreases n - i,
    {
        labels.push(0);
        i += 1;
    }
    let mut g = Graph::new(labels);
    r = 0;
    while r < rs.len()
        invariant
            view == rows_view(rs@),
            r <= rs.len(),
            n == max_id(view, rs.len() as int),
            edge_rows_ok(view),
            g.wf(),
            g@.labels.len() == n,
            forall|j: int| 0 <= j < n ==> g@.labels[j] == 0u32,
            g@.edges == edge_list_arcs(view, r as int),
        decreases rs.len() - r,
    {
        let row = &rs[r];
        assert(view[r as int] == ints(row@));
        let ghost before = g@.edges;
        if row.len() == 2 {
            proof {
                lemma_max_id(view, rs.len() as int, r as int);
            }
            let added = g.add_edge(row[0] - 1, row[1] - 1);
            assert(added);
            proof {
                let e = (row[0] - 1, row[1] - 1);
                assert forall|f: (int, int)| edge_list_arcs(view, r + 1).contains(f) implies before.insert(
                    e,
                ).contains(f) by {
                    let q = choose|q: int|
                        0 <= q < r + 1 && (#[trigger] view[q]).len() == 2 && f == (
                            view[q][0] - 1,
                            view[q][1] - 1,
                        );
                    if q < r {
                        assert(edge_list_arcs(view, r as int).contains(f));
                    }
                }
                assert forall|f: (int, int)| before.insert(e).contains(f) implies edge_list_arcs(
                    view,
                    r + 1,
                ).contains(f) by {
                    if f == e {
                        assert(view[r as int].len() == 2);
                    } else {
                        let q = choose|q: int|
                            0 <= q < r && (#[trigger] view[q]).len() == 2 && f == (
                                view[q][0] - 1,
                                view[q][1] - 1,
                            );
                        assert(view[q].len() == 2);
                    }
                }
                assert(g@.edges =~= edge_list_arcs(view, r + 1));
            }
        } else {
            proof {
                assert forall|f: (int, int)| edge_list_arcs(view, r + 1).contains(f) implies before.contains(
                    f,
                ) by {
                    let q = choose|q: int|
                        0 <= q < r + 1 && (#[trigger] view[q]).len() == 2 && f == (
                            view[q][0] - 1,
                            view[q][1] - 1,
                        );
                    assert(q < r);
                }
                assert forall|f: (int, int)| before.contains(f) implies edge_list_arcs(
                    view,
                    r + 1,
                ).contains(f) by {
                    let q = choose|q: int|
                        0 <= q < r && (#[trigger] view[q]).len() == 2 && f == (
                            view[q][0] - 1,
                            view[q][1] - 1,
                        );
                    assert(view[q].len() == 2);
                }
                assert(g@.edges =~= edge_list_arcs(view, r + 1));
            }
        }
        r += 1;
    }
    assert(g@.labels =~= edge_list_graph(view).labels);
    Some(g)
}

/// Puts the numbers of all rows one after the other.
pub fn flat(rs: &Vec<Vec<usize>>) -> (nums: Vec<usize>)
    ensures
        ints(nums@) == flatten(rows_view(rs@), rs.len() as int),
{
    let ghost view = rows_view(rs@);
    let mut nums: Vec<usize> = Vec::new();
    let mut r: usize = 0;
    assert(ints(nums@) =~= Seq::<int>::empty());
    while r < rs.len()
        invariant
            view == rows_view(rs@),
            r <= rs.len(),
            ints(nums@) == flatten(view, r as int),
        decreases rs.len() - r,
    {
        let row = &rs[r];
        let ghost before = ints(nums@);
        let mut k: usize = 0;
        assert(before + ints(row@).take(0) =~= before);
        while k < row.len()
            invariant
                k <= row.len(),
                ints(nums@) == before + ints(row@).take(k as int),
            decreases row.len() - k,
        {
            let ghost prev = ints(nums@);
            nums.push(row[k]);
            assert(ints(nums@) =~= prev.push(row[k as int] as int));
            assert(ints(row@).take(k + 1) =~= ints(row@).take(k as int).push(row[k as int] as int));
            assert(ints(nums@) =~= before + ints(row@).take(k + 1));
            k += 1;
        }
        assert(ints(row@).take(row.len() as int) =~= ints(row@));
        assert(view[r as int] == ints(row@));
        r += 1;
    }
    nums
}

/// Builds the graph that the numbers stand for in the legacy format.
pub fn legacy(nums: &Vec<usize>) -> (out: Option<Graph>)
    ensures
        match out {
            Some(g) => legacy_ok(ints(nums@)) && g.wf() && g@ == legacy_graph(ints(nums@)),
            None => !legacy_ok(ints(nums@)),
        },
{
    let ghost ns = ints(nums@);
    let len = nums.len();
    if len < 1 {
        return None;
    }
    let n = nums[0];
    assert(ns[0] == n);
    if n > (len - 1) / 2 {
        return None;
    }
    let mut labels: Vec<u32> = Vec::new();
    let mut i: usize = 0;
    while i < n
        invariant
            ns == ints(nums@),
            len == nums.len(),
            len >= 1,
            n == ns[0],
            1 + 2 * n <= len,
            i <= n,
            labels.len() == i,
            forall|j: int|
                0 <= j < i ==> #[trigger] id_at(ns, j) == j && 0 <= attr_at(ns, j) <= u32::MAX
                    && labels[j] == attr_at(ns, j) as u32,
        decreases n - i,
    {
        let id = nums[1 + 2 * i];
        let attr = nums[2 + 2 * i];
        assert(id == id_at(ns, i as int));
        assert(attr == attr_at(ns, i as int));
        if id != i || attr > 0xffff_ffff {
            return None;
        }
        let ghost before = labels@;
        labels.push(attr as u32);
        proof {
            assert forall|j: int| 0 <= j < i + 1 implies #[trigger] id_at(ns, j) == j && 0
                <= attr_at(ns, j) <= u32::MAX && labels[j] == attr_at(ns, j) as u32 by {
                if j < i {
                    assert(id_at(ns, j) == j);
                    assert(labels[j] == before[j]);
                } else {
                    assert(labels[j] == attr as u32);
                }
            }
        }
        i += 1;
    }
    assert(legacy_header_ok(ns));
    let ghost wanted = Seq::new(n as nat, |j: int| attr_at(ns, j) as u32);
    assert forall|j: int| 0 <= j < n implies labels@[j] == wanted[j] by {
        assert(id_at(ns, j) == j);
    }
    assert(labels@ =~= wanted);
    let mut g = Graph::new(labels);
    let start = 1 + 2 * n;
    let mut pos = start;
    i = 0;
    proof {
        assert(g@.edges.union(blocks_arcs(ns, pos as int, 0, n as int)) =~= blocks_arcs(
            ns,
            start as int,
            0,
            n as int,
        ));
    }
    while i < n
        invariant
            ns == ints(nums@),
            len == nums.len(),
            n == ns[0],
            i <= n,
            pos <= len,
            start == 1 + 2 * n,
            legacy_header_ok(ns),
            g.wf(),
            g@.labels == wanted,
            g@.n() == n,
            blocks_ok(ns, start as int, 0, n as int) == blocks_ok(ns, pos as int, i as int, n as int),
            g@.edges.union(blocks_arcs(ns, pos as int, i as int, n as int)) == blocks_arcs(
                ns,
                start as int,
                0,
                n as int,
            ),
        decreases n - i,
    {
        if pos >= len {
            return None;
        }
        let c = nums[pos];
        assert(ns[pos as int] == c);
        if c > (len - pos - 1) / 2 {
            return None;
        }
        let ghost before = g@.edges;
        let mut k: usize = 0;
        assert(g@.edges =~= before.union(block_arcs(ns, pos as int, i as int, 0)));
        while k < c
            invariant
                ns == ints(nums@),
                len == nums.len(),
                n == ns[0],
                i < n,
                pos < len,
                c == ns[pos as int],
                pos + 1 + 2 * c <= len,
                k <= c,
                start == 1 + 2 * n,
                blocks_ok(ns, start as int, 0, n as int) == blocks_ok(
                    ns,
                    pos as int,
                    i as int,
                    n as int,
                ),
                g.wf(),
                g@.labels == wanted,
                g@.n() == n,
                forall|j: int|
                    0 <= j < k ==> #[trigger] arc_source(ns, pos as int, j) == i && 0 <= arc_dest(
                        ns,
                        pos as int,
                        j,
                    ) < n,
                g@.edges == before.union(block_arcs(ns, pos as int, i as int, k as int)),
            decreases c - k,
        {
            let src = nums[pos + 1 + 2 * k];
            let dst = nums[pos + 2 + 2 * k];
            assert(src == arc_source(ns, pos as int, k as int));
            assert(dst == arc_dest(ns, pos as int, k as int));
            if src != i || dst >= n {
                return None;
            }
            let ghost had = g@.edges;
            let added = g.add_edge(i, dst);
            assert(added);
            proof {
                let grown = before.union(block_arcs(ns, pos as int, i as int, k + 1));
                assert forall|f: (int, int)| grown.contains(f) implies had.insert(
                    (i as int, dst as int),
                ).contains(f) by {
                    if !before.contains(f) {
                        let j = choose|j: int|
                            0 <= j < k + 1 && #[trigger] arc_dest(ns, pos as int, j) == f.1;
                        if j < k {
                            assert(block_arcs(ns, pos as int, i as int, k as int).contains(f));
                        }
                    }
                }
                assert forall|f: (int, int)| had.insert((i as int, dst as int)).contains(
                    f,
                ) implies grown.contains(f) by {
                    if f == (i as int, dst as int) {
                        assert(arc_dest(ns, pos as int, k as int) == f.1);
                    } else if !before.contains(f) {
                        let j = choose|j: int|
                            0 <= j < k && #[trigger] arc_dest(ns, pos as int, j) == f.1;
                        assert(arc_dest(ns, pos as int, j) == f.1);
                    }
                }
                assert(g@.edges =~= grown);
            }
            k += 1;
        }
        proof {
            assert(block_ok(ns, pos as int, i as int, n as int));
            let rest = blocks_arcs(ns, pos + 1 + 2 * c, i + 1, n as int);
            let here = block_arcs(ns, pos as int, i as int, c as int);
            assert(blocks_arcs(ns, pos as int, i as int, n as int) == here.union(rest));
            assert(before.union(here).union(rest) =~= before.union(here.union(rest)));
        }
        pos = pos + 1 + 2 * c;
        i += 1;
    }
    if pos != len {
        return None;
    }
    proof {
        assert(g@.edges.union(Set::<(int, int)>::empty()) =~= g@.edges);
        assert(g@.labels == legacy_graph(ns).labels);
    }
    Some(g)
}

/// Loads a graph from its text.
///
/// Fails with [`VF3Error::FormatError`] where the text is malformed: a line
/// that holds anything but blanks and numbers, a number that the machine
/// cannot hold and, by format, an edge row without two ids, the id 0, a
/// vertex out of order or out of range, or a count that the numbers do not
/// bear out.
pub fn load(text: &str, format: GraphFormat, undirected: bool) -> (out: Result<Graph, VF3Error>)
    ensures
        match out {
            Ok(g) => g.wf() && parse(text.spec_bytes(), format, undirected) == Some(g@),
            Err(e) => e == VF3Error::FormatError && parse(text.spec_bytes(), format, undirected)
                is None,
        },
{
    let scanned = scan(text.as_bytes());
    let rs = match scanned {
        Some(rs) => rs,
        None => {
            return Err(VF3Error::FormatError);
        },
    };
    let built = match format {
        GraphFormat::EdgeList => edge_list(&rs),
        GraphFormat::VFLegacy => {
            let nums = flat(&rs);
            legacy(&nums)
        },
    };
    match built {
        None => Err(VF3Error::FormatError),
        Some(g) => {
            if undirected {
                Ok(g.symmetrized())
            } else {
                Ok(g)
            }
        },
    }
}

} // verus!
