//! Arranging launched windows into a workspace's layout tree, and the other
//! decisions of running a workspace definition.
use vstd::prelude::*;
use crate::config::{Layout, LayoutNode, NodeView, AppInfo, AppView, ConfigError, ConfigErrorView, Profile, app_views, apps_in, apps_in_children, build_layout_tree, collect_apps, parse_spec};
use crate::ipc::{SwayEvent, SwayEventView, WindowEventView};
use crate::json::{Json, JsonView, lookup_index, member_index, json_of, parse_json};
use crate::text::{chars_of, push_str, push_signed_decimal, signed_decimal, str_eq, string_of, parse_u32, parse_u32_spec, lex_le, str_le, decimal, decimal_string};
use vstd::set_lib::{set_int_range, lemma_int_range, lemma_len_subset};

verus! {

broadcast use vstd::string::group_string_axioms;

/// A tracked window: the container `con_id`, launched for the node at `path`
/// of workspace `workspace`.
pub struct Placement {
    pub workspace: String,
    pub path: String,
    pub con_id: i64,
}

pub struct PlacementView {
    pub workspace: Seq<char>,
    pub path: Seq<char>,
    pub con_id: i64,
}

impl View for Placement {
    type V = PlacementView;

    open spec fn view(&self) -> PlacementView {
        PlacementView { workspace: self.workspace@, path: self.path@, con_id: self.con_id }
    }
}

pub open spec fn placement_views(placed: Seq<Placement>) -> Seq<PlacementView> {
    placed.map_values(|p: Placement| p@)
}

/// The containers tracked for node `path` of workspace `ws`, in the order
/// they were tracked.
pub open spec fn windows_at(placed: Seq<PlacementView>, ws: Seq<char>, path: Seq<char>) -> Seq<i64>
    decreases placed.len(),
{
    if placed.len() == 0 {
        Seq::empty()
    } else {
        windows_at(placed.drop_last(), ws, path) + if placed.last().workspace == ws
            && placed.last().path == path {
            seq![placed.last().con_id]
        } else {
            Seq::empty()
        }
    }
}

/// The placements on workspace `ws`, in order.
pub open spec fn on_workspace(placed: Seq<PlacementView>, ws: Seq<char>) -> Seq<PlacementView>
    decreases placed.len(),
{
    if placed.len() == 0 {
        Seq::empty()
    } else {
        on_workspace(placed.drop_last(), ws) + if placed.last().workspace == ws {
            seq![placed.last()]
        } else {
            Seq::empty()
        }
    }
}

/// The containers tracked for node `path` of workspace `ws`.
pub fn windows_for(placed: &[Placement], ws: &str, path: &str) -> (r: Vec<i64>)
    ensures
        r@ == windows_at(placement_views(placed@), ws@, path@),
{
    let ghost pv = placement_views(placed@);
    let mut r: Vec<i64> = Vec::new();
    let mut i: usize = 0;
    while i < placed.len()
        invariant
            0 <= i <= placed.len(),
            pv == placement_views(placed@),
            r@ == windows_at(pv.take(i as int), ws@, path@),
        decreases placed.len() - i,
    {
        assert(pv.take(i + 1).drop_last() =~= pv.take(i as int));
        assert(pv.take(i + 1).last() == placed@[i as int]@);
        if str_eq(placed[i].workspace.as_str(), ws) && str_eq(placed[i].path.as_str(), path) {
            r.push(placed[i].con_id);
        } else {
            assert(r@ + Seq::<i64>::empty() =~= r@);
        }
        i += 1;
    }
    assert(pv.take(placed.len() as int) =~= pv);
    r
}

/// How many windows were tracked on workspace `ws`.
pub fn window_count(placed: &[Placement], ws: &str) -> (n: usize)
    ensures
        n == on_workspace(placement_views(placed@), ws@).len(),
{
    let ghost pv = placement_views(placed@);
    let mut n: usize = 0;
    let mut i: usize = 0;
    while i < placed.len()
        invariant
            0 <= i <= placed.len(),
            pv == placement_views(placed@),
            n == on_workspace(pv.take(i as int), ws@).len(),
            n <= i,
        decreases placed.len() - i,
    {
        assert(pv.take(i + 1).drop_last() =~= pv.take(i as int));
        assert(pv.take(i + 1).last() == placed@[i as int]@);
        if str_eq(placed[i].workspace.as_str(), ws) {
            n += 1;
        }
        i += 1;
    }
    assert(pv.take(placed.len() as int) =~= pv);
    n
}

/// The first tracked container of a subtree: the first window of the first
/// leaf, left to right, that has one.
pub open spec fn first_window_spec(n: NodeView, ws: Seq<char>, placed: Seq<PlacementView>) -> Option<i64>
    decreases n, 0nat,
{
    match n {
        NodeView::App { path, .. } => {
            let w = windows_at(placed, ws, path);
            if w.len() > 0 {
                Some(w[0])
            } else {
                None
            }
        },
        NodeView::Container { children, .. } => first_in_children(
            children,
            ws,
            placed,
            children.len(),
        ),
    }
}

/// The first tracked container among the first `k` children.
pub open spec fn first_in_children(children: Seq<NodeView>, ws: Seq<char>, placed: Seq<PlacementView>, k: nat) -> Option<i64>
    decreases children, k,
{
    if k == 0 || k > children.len() {
        None
    } else {
        match first_in_children(children, ws, placed, (k - 1) as nat) {
            Some(w) => Some(w),
            None => first_window_spec(children[k - 1], ws, placed),
        }
    }
}

proof fn lemma_first_in_children_found(children: Seq<NodeView>, ws: Seq<char>, placed: Seq<PlacementView>, k: nat, n: nat)
    requires
        k <= n <= children.len(),
        first_in_children(children, ws, placed, k) is Some,
    ensures
        first_in_children(children, ws, placed, n) == first_in_children(children, ws, placed, k),
    decreases n - k,
{
    if k < n {
        lemma_first_in_children_found(children, ws, placed, k, (n - 1) as nat);
    }
}

/// The first tracked container of `node`'s subtree.
#[verifier::loop_isolation(false)]
pub fn first_window(node: &LayoutNode, ws: &str, placed: &[Placement]) -> (r: Option<i64>)
    ensures
        r == first_window_spec(node@, ws@, placement_views(placed@)),
    decreases node,
{
    match node {
        LayoutNode::App { path, .. } => {
            let w = windows_for(placed, ws, path.as_str());
            if w.len() > 0 {
                Some(w[0])
            } else {
                None
            }
        },
        LayoutNode::Container { children, .. } => {
            let ghost cv = node@->Container_children;
            let ghost pv = placement_views(placed@);
            assert(cv.len() == children.len());
            let mut i: usize = 0;
            while i < children.len()
                invariant
                    0 <= i <= children.len(),
                    forall|j: int| 0 <= j < children.len() ==> #[trigger] cv[j] == children@[j]@,
                    first_in_children(cv, ws@, pv, i as nat) is None,
                decreases children.len() - i,
            {
                let f = first_window(&children[i], ws, placed);
                if f.is_some() {
                    proof {
                        lemma_first_in_children_found(cv, ws@, pv, (i + 1) as nat, cv.len());
                    }
                    return f;
                }
                i += 1;
            }
            None
        },
    }
}

/// A command addressed to container `w`: `[con_id=<w>] <action>`.
pub open spec fn con_cmd(w: i64, action: Seq<char>) -> Seq<char> {
    "[con_id="@ + signed_decimal(w as int) + "] "@ + action
}

fn con_command(w: i64, action: &str) -> (s: String)
    ensures
        s@ == con_cmd(w, action@),
{
    let mut cs: Vec<char> = Vec::new();
    push_str(&mut cs, "[con_id=");
    push_signed_decimal(&mut cs, w);
    push_str(&mut cs, "] ");
    push_str(&mut cs, action);
    assert(cs@ =~= con_cmd(w, action@));
    string_of(cs.as_slice())
}

fn con_command_arg(w: i64, action: &str, arg: &str) -> (s: String)
    ensures
        s@ == con_cmd(w, action@ + arg@),
{
    let mut cs: Vec<char> = Vec::new();
    push_str(&mut cs, "[con_id=");
    push_signed_decimal(&mut cs, w);
    push_str(&mut cs, "] ");
    push_str(&mut cs, action);
    push_str(&mut cs, arg);
    assert(cs@ =~= con_cmd(w, action@ + arg@));
    string_of(cs.as_slice())
}

/// The commands that put window `w`, the `n`-th of its container, in place:
/// shown and tiled (except the first window of a nested container, which
/// stays where its parent level put it), then either split off to start the
/// container (first window of a nested container) or moved to the container's
/// mark, and finally marked.
pub open spec fn place_cmds(w: i64, nested: bool, n: nat, mark: Seq<char>, layout: Seq<char>) -> Seq<Seq<char>> {
    (if n > 0 || !nested {
        seq![con_cmd(w, "scratchpad show"@), con_cmd(w, "floating disable"@)]
    } else {
        Seq::empty()
    }) + (if n == 0 && nested {
        seq![con_cmd(w, "splith"@), con_cmd(w, "layout "@ + layout)]
    } else if n > 0 {
        seq![con_cmd(w, "move to mark "@ + mark)]
    } else {
        Seq::empty()
    }) + seq![con_cmd(w, "mark --add "@ + mark)]
}

pub open spec fn string_views(s: Seq<String>) -> Seq<Seq<char>> {
    s.map_values(|x: String| x@)
}

fn place_window(out: &mut Vec<String>, w: i64, depth: usize, n: usize, mark: &str, layout: &str)
    ensures
        string_views(final(out)@) == string_views(old(out)@) + place_cmds(
            w,
            depth > 0,
            n as nat,
            mark@,
            layout@,
        ),
        final(out)@.len() > old(out)@.len(),
{
    let ghost start = string_views(out@);
    if n > 0 || depth == 0 {
        out.push(con_command(w, "scratchpad show"));
        out.push(con_command(w, "floating disable"));
    }
    if n == 0 && depth > 0 {
        out.push(con_command(w, "splith"));
        out.push(con_command_arg(w, "layout ", layout));
    } else if n > 0 {
        out.push(con_command_arg(w, "move to mark ", mark));
    }
    out.push(con_command_arg(w, "mark --add ", mark));
    assert(string_views(out@) =~= start + place_cmds(w, depth > 0, n as nat, mark@, layout@));
}


/// The windows a child contributes to its parent's level: every tracked
/// window of a leaf, or the first tracked window of a nested container.
pub open spec fn child_windows(c: NodeView, ws: Seq<char>, placed: Seq<PlacementView>) -> Seq<i64> {
    match c {
        NodeView::App { path, .. } => windows_at(placed, ws, path),
        NodeView::Container { .. } => match first_window_spec(c, ws, placed) {
            Some(w) => seq![w],
            None => Seq::empty(),
        },
    }
}

/// The windows the first `k` children contribute, in order.
pub open spec fn level_windows(children: Seq<NodeView>, ws: Seq<char>, placed: Seq<PlacementView>, k: nat) -> Seq<i64>
    decreases k,
{
    if k == 0 || k > children.len() {
        Seq::empty()
    } else {
        level_windows(children, ws, placed, (k - 1) as nat) + child_windows(children[k - 1], ws, placed)
    }
}

/// The commands placing the first `m` windows of a level.
pub open spec fn place_all(wins: Seq<i64>, nested: bool, mark: Seq<char>, layout: Seq<char>, m: nat) -> Seq<Seq<char>>
    decreases m,
{
    if m == 0 || m > wins.len() {
        Seq::empty()
    } else {
        place_all(wins, nested, mark, layout, (m - 1) as nat) + place_cmds(
            wins[m - 1],
            nested,
            (m - 1) as nat,
            mark,
            layout,
        )
    }
}

/// The mark of the container at `path` of workspace `ws`.
pub open spec fn mark_of(ws: Seq<char>, path: Seq<char>) -> Seq<char> {
    if path.len() == 0 {
        "_layout_"@ + ws
    } else {
        "_layout_"@ + ws + seq!['_'] + path
    }
}

/// Whether a child is a nested container that received a window, and so is
/// arranged after its level.
pub open spec fn is_deferred(c: NodeView, ws: Seq<char>, placed: Seq<PlacementView>) -> bool {
    c is Container && first_window_spec(c, ws, placed) is Some
}

/// The commands that arrange a subtree: every window of the node's level is
/// placed into the node's container, then every nested container that
/// received a window is arranged in turn.
pub open spec fn arrange_spec(n: NodeView, ws: Seq<char>, placed: Seq<PlacementView>, nested: bool) -> Seq<Seq<char>>
    decreases n, 0nat,
{
    match n {
        NodeView::App { .. } => Seq::empty(),
        NodeView::Container { path, layout, children } => {
            let wins = level_windows(children, ws, placed, children.len());
            place_all(wins, nested, mark_of(ws, path), layout.name(), wins.len()) + arrange_children(
                children,
                ws,
                placed,
                children.len(),
            )
        },
    }
}

/// The commands arranging the deferred ones among the first `k` children.
pub open spec fn arrange_children(children: Seq<NodeView>, ws: Seq<char>, placed: Seq<PlacementView>, k: nat) -> Seq<Seq<char>>
    decreases children, k,
{
    if k == 0 || k > children.len() {
        Seq::empty()
    } else {
        arrange_children(children, ws, placed, (k - 1) as nat) + if is_deferred(
            children[k - 1],
            ws,
            placed,
        ) {
            arrange_spec(children[k - 1], ws, placed, true)
        } else {
            Seq::empty()
        }
    }
}

fn make_mark(ws: &str, path: &str) -> (m: String)
    ensures
        m@ == mark_of(ws@, path@),
{
    let mut cs: Vec<char> = Vec::new();
    push_str(&mut cs, "_layout_");
    push_str(&mut cs, ws);
    let p = chars_of(path);
    if p.len() > 0 {
        cs.push('_');
        push_str(&mut cs, path);
    }
    assert(cs@ =~= mark_of(ws@, path@));
    string_of(cs.as_slice())
}

proof fn lemma_place_all_step(wins: Seq<i64>, extra: Seq<i64>, nested: bool, mark: Seq<char>, layout: Seq<char>, j: nat)
    requires
        j <= extra.len(),
    ensures
        place_all(wins + extra, nested, mark, layout, (wins.len() + j) as nat) == place_all(
            wins + extra.take(j as int),
            nested,
            mark,
            layout,
            (wins.len() + j) as nat,
        ),
    decreases j,
{
    if j > 0 {
        lemma_place_all_step(wins, extra, nested, mark, layout, (j - 1) as nat);
        lemma_place_all_prefix(wins + extra, wins + extra.take(j as int), nested, mark, layout, (wins.len() + j) as nat);
    } else {
        lemma_place_all_prefix(wins + extra, wins + extra.take(0), nested, mark, layout, wins.len() as nat);
    }
}

/// Placing the first `m` windows reads only those windows.
proof fn lemma_place_all_prefix(a: Seq<i64>, b: Seq<i64>, nested: bool, mark: Seq<char>, layout: Seq<char>, m: nat)
    requires
        m <= a.len(),
        m <= b.len(),
        forall|i: int| 0 <= i < m ==> a[i] == b[i],
    ensures
        place_all(a, nested, mark, layout, m) == place_all(b, nested, mark, layout, m),
    decreases m,
{
    if m > 0 {
        lemma_place_all_prefix(a, b, nested, mark, layout, (m - 1) as nat);
    }
}

/// Places the windows `wins`, which are the windows `n..` of a level whose
/// windows are `all`.
fn place_run(
    out: &mut Vec<String>,
    wins: &Vec<i64>,
    depth: usize,
    n: usize,
    mark: &str,
    layout: &str,
    Ghost(all): Ghost<Seq<i64>>,
    Ghost(start): Ghost<Seq<Seq<char>>>,
) -> (n_end: usize)
    requires
        n + wins.len() <= all.len(),
        all.subrange(n as int, n + wins.len()) == wins@,
        n <= old(out).len(),
        string_views(old(out)@) == start + place_all(all, depth > 0, mark@, layout@, n as nat),
    ensures
        n_end == n + wins.len(),
        n_end <= final(out).len(),
        string_views(final(out)@) == start + place_all(all, depth > 0, mark@, layout@, n_end as nat),
{
    let mut m: usize = n;
    let mut k: usize = 0;
    while k < wins.len()
        invariant
            0 <= k <= wins.len(),
            n + wins.len() <= all.len(),
            all.subrange(n as int, n + wins.len()) == wins@,
            m == n + k,
            m <= out.len(),
            string_views(out@) == start + place_all(all, depth > 0, mark@, layout@, m as nat),
        decreases wins.len() - k,
    {
        assert(all[m as int] == wins@[k as int]);
        place_window(out, wins[k], depth, m, mark, layout);
        assert(m < out.len());
        m += 1;
        k += 1;
    }
    m
}

/// Places every window of a container's level, in order, and reports which
/// children are nested containers to arrange afterwards.
#[verifier::loop_isolation(false)]
fn place_level(
    out: &mut Vec<String>,
    ws: &str,
    children: &Vec<LayoutNode>,
    placed: &[Placement],
    depth: usize,
    mark: &str,
    layout: &str,
) -> (deferred: Vec<bool>)
    ensures
        string_views(final(out)@) == string_views(old(out)@) + place_all(
            level_windows(children@.map_values(|c: LayoutNode| c@), ws@, placement_views(placed@), children.len() as nat),
            depth > 0,
            mark@,
            layout@,
            level_windows(children@.map_values(|c: LayoutNode| c@), ws@, placement_views(placed@), children.len() as nat).len(),
        ),
        deferred.len() == children.len(),
        forall|j: int|
            0 <= j < children.len() ==> #[trigger] deferred@[j] == is_deferred(
                children@[j]@,
                ws@,
                placement_views(placed@),
            ),
{
    let ghost pv = placement_views(placed@);
    let ghost cv = children@.map_values(|c: LayoutNode| c@);
    let ghost start = string_views(out@);
    let ghost nested = depth > 0;
    let mut n: usize = 0;
    let mut deferred: Vec<bool> = Vec::new();
    let mut i: usize = 0;
    while i < children.len()
        invariant
            0 <= i <= children.len(),
            n as nat == level_windows(cv, ws@, pv, i as nat).len(),
            n <= out.len(),
            string_views(out@) == start + place_all(
                level_windows(cv, ws@, pv, i as nat),
                nested,
                mark@,
                layout@,
                n as nat,
            ),
            deferred.len() == i,
            forall|j: int| 0 <= j < i ==> #[trigger] deferred@[j] == is_deferred(cv[j], ws@, pv),
        decreases children.len() - i,
    {
        let ghost prev = level_windows(cv, ws@, pv, i as nat);
        let ghost extra = child_windows(cv[i as int], ws@, pv);
        assert(cv[i as int] == children@[i as int]@);
        assert(level_windows(cv, ws@, pv, (i + 1) as nat) == prev + extra);
        proof {
            lemma_place_all_prefix(prev, prev + extra, nested, mark@, layout@, n as nat);
        }
        match &children[i] {
            LayoutNode::App { path: child_path, .. } => {
                let wins = windows_for(placed, ws, child_path.as_str());
                assert(wins@ == extra);
                assert((prev + extra).subrange(n as int, n + wins.len()) =~= wins@);
                n = place_run(out, &wins, depth, n, mark, layout, Ghost(prev + extra), Ghost(start));
                deferred.push(false);
            },
            LayoutNode::Container { .. } => {
                match first_window(&children[i], ws, placed) {
                    Some(w) => {
                        assert((prev + extra)[n as int] == w);
                        place_window(out, w, depth, n, mark, layout);
                        assert(n < out.len());
                        n += 1;
                        deferred.push(true);
                    },
                    None => {
                        deferred.push(false);
                    },
                }
            },
        }
        proof {
            lemma_place_all_prefix(
                prev + extra,
                level_windows(cv, ws@, pv, (i + 1) as nat),
                nested,
                mark@,
                layout@,
                n as nat,
            );
        }
        i += 1;
    }
    deferred
}

/// Emits the commands arranging the subtree at `node`; `depth` counts the
/// nesting below the workspace's root container.
#[verifier::loop_isolation(false)]
fn arrange_tree(out: &mut Vec<String>, ws: &str, node: &LayoutNode, placed: &[Placement], depth: usize)
    ensures
        string_views(final(out)@) == string_views(old(out)@) + arrange_spec(
            node@,
            ws@,
            placement_views(placed@),
            depth > 0,
        ),
    decreases node,
{
    let ghost pv = placement_views(placed@);
    let ghost start = string_views(out@);
    match node {
        LayoutNode::App { .. } => {
            assert(string_views(out@) =~= start + Seq::<Seq<char>>::empty());
        },
        LayoutNode::Container { path, layout, children } => {
            let ghost cv = node@->Container_children;
            assert(cv =~= children@.map_values(|c: LayoutNode| c@));
            let mark = make_mark(ws, path.as_str());
            let layout_str = layout.as_str();
            let deferred = place_level(out, ws, children, placed, depth, mark.as_str(), layout_str);
            let ghost mid = string_views(out@);
            let next_depth = depth.saturating_add(1);
            let mut j: usize = 0;
            while j < children.len()
                invariant
                    0 <= j <= children.len(),
                    next_depth > 0,
                    string_views(out@) == mid + arrange_children(cv, ws@, pv, j as nat),
                decreases children.len() - j,
            {
                let ghost before = string_views(out@);
                assert(cv[j as int] == children@[j as int]@);
                if deferred[j] {
                    arrange_tree(out, ws, &children[j], placed, next_depth);
                } else {
                    assert(before + Seq::<Seq<char>>::empty() =~= before);
                }
                assert(string_views(out@) =~= mid + arrange_children(cv, ws@, pv, (j + 1) as nat));
                j += 1;
            }
            assert(string_views(out@) =~= start + arrange_spec(node@, ws@, pv, depth > 0));
        },
    }
}


/// The name of a tree's root layout; a bare app counts as `splith`.
pub open spec fn root_layout_name(tree: NodeView) -> Seq<char> {
    match tree {
        NodeView::Container { layout, .. } => layout.name(),
        _ => "splith"@,
    }
}

/// The commands that show and tile the first `m` of `wins`.
pub open spec fn show_cmds(wins: Seq<i64>, m: nat) -> Seq<Seq<char>>
    decreases m,
{
    if m == 0 || m > wins.len() {
        Seq::empty()
    } else {
        show_cmds(wins, (m - 1) as nat) + seq![
            con_cmd(wins[m - 1], "scratchpad show"@),
            con_cmd(wins[m - 1], "floating disable"@),
        ]
    }
}

/// The commands that build workspace `ws`: switch to it and set its root
/// layout; then, for a workspace that is a single app, show and tile that
/// app's tracked windows, and otherwise, if any window was tracked for it,
/// arrange the tree.
pub open spec fn arrange_workspace_spec(ws: Seq<char>, tree: NodeView, placed: Seq<PlacementView>) -> Seq<Seq<char>> {
    seq!["workspace "@ + ws, "layout "@ + root_layout_name(tree)] + match tree {
        NodeView::App { path, .. } => show_cmds(
            windows_at(placed, ws, path),
            windows_at(placed, ws, path).len(),
        ),
        NodeView::Container { .. } => if on_workspace(placed, ws).len() == 0 {
            Seq::empty()
        } else {
            arrange_spec(tree, ws, placed, false)
        },
    }
}

/// Whether the tree `n` holds an app leaf at path `lp` as a child of the
/// container at path `pp`.
pub open spec fn leaf_below(n: NodeView, pp: Seq<char>, lp: Seq<char>) -> bool
    decreases n, 0nat,
{
    match n {
        NodeView::App { .. } => false,
        NodeView::Container { path, children, .. } => leaf_among(children, path, pp, lp, children.len()),
    }
}

/// Whether the first `k` children of the container at `cpath` hold, as a
/// child or deeper, an app leaf at path `lp` in the container at `pp`.
pub open spec fn leaf_among(children: Seq<NodeView>, cpath: Seq<char>, pp: Seq<char>, lp: Seq<char>, k: nat) -> bool
    decreases children, k,
{
    if k == 0 || k > children.len() {
        false
    } else {
        leaf_among(children, cpath, pp, lp, (k - 1) as nat) || (children[k - 1] is App && children[k
            - 1].path() == lp && cpath == pp) || leaf_below(children[k - 1], pp, lp)
    }
}

proof fn lemma_concat_contains<A>(a: Seq<A>, b: Seq<A>, x: A)
    ensures
        a.contains(x) ==> (a + b).contains(x),
        b.contains(x) ==> (a + b).contains(x),
{
    if a.contains(x) {
        let i = choose|i: int| 0 <= i < a.len() && a[i] == x;
        assert((a + b)[i] == x);
    }
    if b.contains(x) {
        let i = choose|i: int| 0 <= i < b.len() && b[i] == x;
        assert((a + b)[a.len() + i] == x);
    }
}

proof fn lemma_place_all_marks(wins: Seq<i64>, nested: bool, mark: Seq<char>, layout: Seq<char>, m: nat, j: int)
    requires
        0 <= j < m <= wins.len(),
    ensures
        place_all(wins, nested, mark, layout, m).contains(con_cmd(wins[j], "mark --add "@ + mark)),
    decreases m,
{
    let prev = place_all(wins, nested, mark, layout, (m - 1) as nat);
    let cmds = place_cmds(wins[m - 1], nested, (m - 1) as nat, mark, layout);
    if j < m - 1 {
        lemma_place_all_marks(wins, nested, mark, layout, (m - 1) as nat, j);
        lemma_concat_contains(prev, cmds, con_cmd(wins[j], "mark --add "@ + mark));
    } else {
        assert(cmds[cmds.len() - 1] == con_cmd(wins[j], "mark --add "@ + mark));
        lemma_concat_contains(prev, cmds, con_cmd(wins[j], "mark --add "@ + mark));
    }
}

proof fn lemma_on_workspace_nonempty(placed: Seq<PlacementView>, ws: Seq<char>, lp: Seq<char>)
    requires
        windows_at(placed, ws, lp).len() > 0,
    ensures
        on_workspace(placed, ws).len() > 0,
    decreases placed.len(),
{
    if placed.len() > 0 && windows_at(placed.drop_last(), ws, lp).len() > 0 {
        lemma_on_workspace_nonempty(placed.drop_last(), ws, lp);
    }
}

proof fn lemma_first_some(n: NodeView, ws: Seq<char>, placed: Seq<PlacementView>, pp: Seq<char>, lp: Seq<char>)
    requires
        leaf_below(n, pp, lp),
        windows_at(placed, ws, lp).len() > 0,
    ensures
        first_window_spec(n, ws, placed) is Some,
    decreases n, 0nat,
{
    if let NodeView::Container { path, children, .. } = n {
        lemma_first_some_among(children, path, ws, placed, pp, lp, children.len());
    }
}

proof fn lemma_first_some_among(children: Seq<NodeView>, cpath: Seq<char>, ws: Seq<char>, placed: Seq<PlacementView>, pp: Seq<char>, lp: Seq<char>, k: nat)
    requires
        leaf_among(children, cpath, pp, lp, k),
        windows_at(placed, ws, lp).len() > 0,
    ensures
        first_in_children(children, ws, placed, k) is Some,
    decreases children, k,
{
    if leaf_among(children, cpath, pp, lp, (k - 1) as nat) {
        lemma_first_some_among(children, cpath, ws, placed, pp, lp, (k - 1) as nat);
    } else if children[k - 1] is App && children[k - 1].path() == lp {
        let c = children[k - 1];
        assert(windows_at(placed, ws, c->App_path).len() > 0);
        assert(first_window_spec(c, ws, placed) is Some);
    } else {
        lemma_first_some(children[k - 1], ws, placed, pp, lp);
    }
}

proof fn lemma_marked(n: NodeView, ws: Seq<char>, placed: Seq<PlacementView>, nested: bool, pp: Seq<char>, lp: Seq<char>, w: i64)
    requires
        leaf_below(n, pp, lp),
        windows_at(placed, ws, lp).contains(w),
    ensures
        arrange_spec(n, ws, placed, nested).contains(con_cmd(w, "mark --add "@ + mark_of(ws, pp))),
    decreases n, 0nat,
{
    if let NodeView::Container { path, layout, children } = n {
        let cmd = con_cmd(w, "mark --add "@ + mark_of(ws, pp));
        let wins = level_windows(children, ws, placed, children.len());
        let placing = place_all(wins, nested, mark_of(ws, path), layout.name(), wins.len());
        let rest = arrange_children(children, ws, placed, children.len());
        lemma_marked_among(children, path, ws, placed, pp, lp, w, children.len());
        if path == pp && wins.contains(w) {
            let j = choose|j: int| 0 <= j < wins.len() && wins[j] == w;
            lemma_place_all_marks(wins, nested, mark_of(ws, path), layout.name(), wins.len(), j);
        }
        lemma_concat_contains(placing, rest, cmd);
    }
}

proof fn lemma_marked_among(children: Seq<NodeView>, cpath: Seq<char>, ws: Seq<char>, placed: Seq<PlacementView>, pp: Seq<char>, lp: Seq<char>, w: i64, k: nat)
    requires
        leaf_among(children, cpath, pp, lp, k),
        windows_at(placed, ws, lp).contains(w),
    ensures
        (cpath == pp && level_windows(children, ws, placed, k).contains(w)) || arrange_children(
            children,
            ws,
            placed,
            k,
        ).contains(con_cmd(w, "mark --add "@ + mark_of(ws, pp))),
    decreases children, k,
{
    let cmd = con_cmd(w, "mark --add "@ + mark_of(ws, pp));
    let lw = level_windows(children, ws, placed, (k - 1) as nat);
    let cw = child_windows(children[k - 1], ws, placed);
    let ac = arrange_children(children, ws, placed, (k - 1) as nat);
    let extra = if is_deferred(children[k - 1], ws, placed) {
        arrange_spec(children[k - 1], ws, placed, true)
    } else {
        Seq::empty()
    };
    assert(level_windows(children, ws, placed, k) == lw + cw);
    assert(arrange_children(children, ws, placed, k) == ac + extra);
    if leaf_among(children, cpath, pp, lp, (k - 1) as nat) {
        lemma_marked_among(children, cpath, ws, placed, pp, lp, w, (k - 1) as nat);
        lemma_concat_contains(lw, cw, w);
        lemma_concat_contains(ac, extra, cmd);
    } else if children[k - 1] is App && children[k - 1].path() == lp && cpath == pp {
        assert(cw == windows_at(placed, ws, lp));
        lemma_concat_contains(lw, cw, w);
    } else {
        assert(leaf_below(children[k - 1], pp, lp));
        assert(windows_at(placed, ws, lp).len() > 0);
        lemma_first_some(children[k - 1], ws, placed, pp, lp);
        lemma_marked(children[k - 1], ws, placed, true, pp, lp, w);
        lemma_concat_contains(ac, extra, cmd);
    }
}

/// Every window lands in its own container: for each app leaf of a
/// workspace's tree and each window tracked for it, the commands that build
/// the workspace mark that window with the mark of the leaf's container
/// (`_layout_<ws>` for the root container, `_layout_<ws>_<p>` for the one at
/// path `p`), however deep the container sits and whatever its position
/// among its siblings.
pub proof fn lemma_windows_reach_their_container(ws: Seq<char>, tree: NodeView, placed: Seq<PlacementView>, pp: Seq<char>, lp: Seq<char>, w: i64)
    requires
        leaf_below(tree, pp, lp),
        windows_at(placed, ws, lp).contains(w),
    ensures
        arrange_workspace_spec(ws, tree, placed).contains(
            "[con_id="@ + signed_decimal(w as int) + "] mark --add "@ + if pp.len() == 0 {
                "_layout_"@ + ws
            } else {
                "_layout_"@ + ws + "_"@ + pp
            },
        ),
{
    reveal_strlit("[con_id=");
    reveal_strlit("] ");
    reveal_strlit("mark --add ");
    reveal_strlit("] mark --add ");
    reveal_strlit("_layout_");
    reveal_strlit("_");
    let text = "[con_id="@ + signed_decimal(w as int) + "] mark --add "@ + if pp.len() == 0 {
        "_layout_"@ + ws
    } else {
        "_layout_"@ + ws + "_"@ + pp
    };
    let cmd = con_cmd(w, "mark --add "@ + mark_of(ws, pp));
    assert(cmd =~= text);
    lemma_marked(tree, ws, placed, false, pp, lp, w);
    lemma_on_workspace_nonempty(placed, ws, lp);
    let head = seq!["workspace "@ + ws, "layout "@ + root_layout_name(tree)];
    lemma_concat_contains(head, arrange_spec(tree, ws, placed, false), cmd);
}

/// `workspace <ws>`: the command that switches to workspace `ws`.
pub fn workspace_command(ws: &str) -> (s: String)
    ensures
        s@ == "workspace "@ + ws@,
{
    let mut cs: Vec<char> = Vec::new();
    push_str(&mut cs, "workspace ");
    push_str(&mut cs, ws);
    string_of(cs.as_slice())
}

/// `layout <name>`: the command that sets the focused container's layout.
pub fn layout_command(name: &str) -> (s: String)
    ensures
        s@ == "layout "@ + name@,
{
    let mut cs: Vec<char> = Vec::new();
    push_str(&mut cs, "layout ");
    push_str(&mut cs, name);
    string_of(cs.as_slice())
}

/// The commands that build workspace `ws` from its tree and the windows
/// tracked for it.
pub fn arrange_workspace(ws: &str, tree: &LayoutNode, placed: &[Placement]) -> (cmds: Vec<String>)
    ensures
        string_views(cmds@) == arrange_workspace_spec(ws@, tree@, placement_views(placed@)),
{
    let root_layout = match tree {
        LayoutNode::Container { layout, .. } => layout.as_str(),
        _ => "splith",
    };
    let mut out: Vec<String> = Vec::new();
    out.push(workspace_command(ws));
    out.push(layout_command(root_layout));
    let ghost start = string_views(out@);
    assert(start =~= seq!["workspace "@ + ws@, "layout "@ + root_layout_name(tree@)]);
    if let LayoutNode::App { path, .. } = tree {
        let wins = windows_for(placed, ws, path.as_str());
        let mut k: usize = 0;
        assert(start + show_cmds(wins@, 0) =~= start);
        while k < wins.len()
            invariant
                0 <= k <= wins.len(),
                string_views(out@) == start + show_cmds(wins@, k as nat),
            decreases wins.len() - k,
        {
            let ghost before = string_views(out@);
            out.push(con_command(wins[k], "scratchpad show"));
            out.push(con_command(wins[k], "floating disable"));
            assert(string_views(out@) =~= before + seq![
                con_cmd(wins@[k as int], "scratchpad show"@),
                con_cmd(wins@[k as int], "floating disable"@),
            ]);
            k += 1;
        }
        return out;
    }
    if window_count(placed, ws) == 0 {
        assert(start + Seq::<Seq<char>>::empty() =~= start);
        return out;
    }
    arrange_tree(&mut out, ws, tree, placed, 0);
    out
}

/// Tracking the windows of launched apps as they appear. Every tracked
/// window is recorded with the workspace and tree position its process
/// carries.
pub struct WindowCollector {
    expected: usize,
    placed: Vec<Placement>,
}

impl WindowCollector {
    pub closed spec fn expected_count(&self) -> nat {
        self.expected as nat
    }

    pub closed spec fn placements(&self) -> Seq<PlacementView> {
        placement_views(self.placed@)
    }

    /// A collector waiting for `expected` windows.
    pub fn new(expected: usize) -> (c: WindowCollector)
        ensures
            c.expected_count() == expected,
            c.placements() == Seq::<PlacementView>::empty(),
    {
        let c = WindowCollector { expected, placed: Vec::new() };
        assert(c.placements() =~= Seq::<PlacementView>::empty());
        c
    }

    /// How many windows have been tracked.
    pub fn count(&self) -> (n: usize)
        ensures
            n == self.placements().len(),
    {
        self.placed.len()
    }

    /// Whether every expected window has been tracked.
    pub fn is_complete(&self) -> (b: bool)
        ensures
            b == (self.placements().len() >= self.expected_count()),
    {
        self.placed.len() >= self.expected
    }

    /// Whether a window event is a new window to track; such a window is
    /// first moved to the scratchpad (the command returned) and then its
    /// process is looked up.
    pub fn on_window_event(&self, ev: &crate::ipc::WindowEvent) -> (cmd: Option<String>)
        ensures
            match cmd {
                Some(c) => ev.change@ == "new"@ && ev.con_id != 0 && ev.pid != 0 && c@ == con_cmd(
                    ev.con_id,
                    "move scratchpad"@,
                ),
                None => !(ev.change@ == "new"@ && ev.con_id != 0 && ev.pid != 0),
            },
    {
        if str_eq(ev.change.as_str(), "new") && ev.con_id != 0 && ev.pid != 0 {
            Some(con_command(ev.con_id, "move scratchpad"))
        } else {
            None
        }
    }

    /// Records what the process of window `con_id` carries: with spawn
    /// metadata the window is tracked (nothing to send); without, it is an
    /// outside window and is shown again (the command returned).
    pub fn on_metadata(&mut self, con_id: i64, meta: Option<(String, String)>) -> (cmd: Option<String>)
        ensures
            final(self).expected_count() == old(self).expected_count(),
            match meta {
                Some((ws, path)) => cmd is None && final(self).placements() == old(self).placements().push(
                    PlacementView { workspace: ws@, path: path@, con_id },
                ),
                None => final(self).placements() == old(self).placements() && cmd is Some
                    && cmd->Some_0@ == con_cmd(con_id, "scratchpad show"@),
            },
    {
        match meta {
            Some((ws, path)) => {
                let p = Placement { workspace: ws, path, con_id };
                let ghost pv = p@;
                self.placed.push(p);
                assert(self.placements() =~= old(self).placements().push(pv));
                None
            },
            None => Some(con_command(con_id, "scratchpad show")),
        }
    }

    /// The tracked windows, in the order they were tracked.
    pub fn into_placements(self) -> (placed: Vec<Placement>)
        ensures
            placement_views(placed@) == self.placements(),
    {
        self.placed
    }
}

/// How long waiting for windows may stay quiet: the wait ends this many
/// milliseconds after the start or after the last tracked window.
pub const QUIET_MS: u64 = 3000;

/// The longest wait for windows, in milliseconds after the start.
pub const HARD_STOP_MS: u64 = 30000;

/// The shortest time to block for the next event, in milliseconds.
pub const MIN_WAIT_MS: u64 = 50;

/// A time `n` milliseconds in, held as a `u64` (the latest time when `n` is
/// beyond it).
pub open spec fn capped_ms(n: int) -> u64 {
    if n > u64::MAX {
        u64::MAX
    } else if n < 0 {
        0
    } else {
        n as u64
    }
}

/// When waiting for windows ends: at the quiet deadline, which each tracked
/// window moves to `QUIET_MS` after it, or at the hard deadline, whichever
/// comes first. Times are milliseconds on one clock.
pub struct WaitDeadlines {
    quiet: u64,
    hard: u64,
}

impl WaitDeadlines {
    pub closed spec fn quiet_deadline(&self) -> u64 {
        self.quiet
    }

    pub closed spec fn hard_deadline(&self) -> u64 {
        self.hard
    }

    /// The deadlines of a wait starting at `now`.
    pub fn start(now: u64) -> (d: WaitDeadlines)
        ensures
            d.quiet_deadline() == capped_ms(now + QUIET_MS),
            d.hard_deadline() == capped_ms(now + HARD_STOP_MS),
    {
        WaitDeadlines { quiet: now.saturating_add(QUIET_MS), hard: now.saturating_add(HARD_STOP_MS) }
    }

    /// A window was tracked at `now`: the quiet deadline moves to `QUIET_MS`
    /// after it; the hard deadline stays.
    pub fn on_tracked(&mut self, now: u64)
        ensures
            final(self).quiet_deadline() == capped_ms(now + QUIET_MS),
            final(self).hard_deadline() == old(self).hard_deadline(),
    {
        self.quiet = now.saturating_add(QUIET_MS);
    }

    /// How long to block for the next event at `now`: until the earlier
    /// deadline, but at least `MIN_WAIT_MS`.
    pub fn timeout_ms(&self, now: u64) -> (t: u64)
        ensures
            t == if self.quiet_deadline() <= self.hard_deadline() {
                if self.quiet_deadline() - now > MIN_WAIT_MS {
                    self.quiet_deadline() - now
                } else {
                    MIN_WAIT_MS as int
                }
            } else {
                if self.hard_deadline() - now > MIN_WAIT_MS {
                    self.hard_deadline() - now
                } else {
                    MIN_WAIT_MS as int
                }
            },
    {
        let first = if self.quiet <= self.hard {
            self.quiet
        } else {
            self.hard
        };
        let left = first.saturating_sub(now);
        if left > MIN_WAIT_MS {
            left
        } else {
            MIN_WAIT_MS
        }
    }

    /// Whether the wait is over at `now`: a deadline has been reached.
    pub fn expired(&self, now: u64) -> (b: bool)
        ensures
            b == (now >= self.quiet_deadline() || now >= self.hard_deadline()),
    {
        now >= self.quiet || now >= self.hard
    }
}

/// Why waiting for windows ends.
#[derive(Debug, Clone, Copy, PartialEq, Eq)]
pub enum WaitEnd {
    /// Every expected window was tracked.
    AllPlaced,
    /// A deadline passed first.
    TimedOut,
}

/// Whether waiting ends at `now`, and why: once every expected window is
/// tracked; otherwise once a deadline is reached.
pub fn wait_end(collector: &WindowCollector, deadlines: &WaitDeadlines, now: u64) -> (r: Option<WaitEnd>)
    ensures
        r == if collector.placements().len() >= collector.expected_count() {
            Some(WaitEnd::AllPlaced)
        } else if now >= deadlines.quiet_deadline() || now >= deadlines.hard_deadline() {
            Some(WaitEnd::TimedOut)
        } else {
            None
        },
{
    if collector.is_complete() {
        Some(WaitEnd::AllPlaced)
    } else if deadlines.expired(now) {
        Some(WaitEnd::TimedOut)
    } else {
        None
    }
}

/// A tracked window is listed under its own workspace and tree position,
/// after the windows tracked there before it; the lists of every other
/// position are unchanged.
pub proof fn lemma_tracking_appends(placed: Seq<PlacementView>, p: PlacementView, ws: Seq<char>, path: Seq<char>)
    ensures
        windows_at(placed.push(p), ws, path) == if p.workspace == ws && p.path == path {
            windows_at(placed, ws, path).push(p.con_id)
        } else {
            windows_at(placed, ws, path)
        },
{
    assert(placed.push(p).drop_last() =~= placed);
    if p.workspace == ws && p.path == path {
        assert(windows_at(placed, ws, path) + seq![p.con_id] =~= windows_at(placed, ws, path).push(p.con_id));
    } else {
        assert(windows_at(placed, ws, path) + Seq::<i64>::empty() =~= windows_at(placed, ws, path));
    }
}


/// The workspace a node of Sway's tree belongs to: its own name when it is a
/// workspace node (with a string name), else the workspace around it.
pub open spec fn node_workspace(v: JsonView, ws: Seq<char>) -> Seq<char> {
    if v.at("type"@).as_str() == Some("workspace"@) {
        match v.at("name"@).as_str() {
            Some(n) => n,
            None => ws,
        }
    } else {
        ws
    }
}

/// The occupied workspaces below the children an object lists under `key`.
pub open spec fn occupied_member(v: JsonView, key: Seq<char>, ws: Seq<char>) -> Set<Seq<char>>
    decreases v, 1nat,
{
    match v {
        JsonView::Object(entries) => match lookup_index(entries, key) {
            Some(i) => if i < entries.len() {
                match entries[i as int].1 {
                    JsonView::Array(items) => occupied_items(entries[i as int].1, ws, items.len()),
                    _ => Set::empty(),
                }
            } else {
                Set::empty()
            },
            None => Set::empty(),
        },
        _ => Set::empty(),
    }
}

/// The workspaces of Sway's tree below `v` (itself on workspace `ws`) that
/// hold an app window: a node with an `app_id` member, on a named workspace.
/// Child nodes are listed under `nodes` and `floating_nodes`.
pub open spec fn occupied(v: JsonView, ws: Seq<char>) -> Set<Seq<char>>
    decreases v, 2nat,
{
    match v {
        JsonView::Object(_) => {
            let w = node_workspace(v, ws);
            (if v.field("app_id"@) is Some && w.len() > 0 {
                set![w]
            } else {
                Set::empty()
            }) + occupied_member(v, "nodes"@, w) + occupied_member(v, "floating_nodes"@, w)
        },
        _ => Set::empty(),
    }
}

/// The occupied workspaces below the first `n` items of array `arr`, all on
/// workspace `ws`.
pub open spec fn occupied_items(arr: JsonView, ws: Seq<char>, n: nat) -> Set<Seq<char>>
    decreases arr, n,
{
    match arr {
        JsonView::Array(items) => if n == 0 || n > items.len() {
            Set::empty()
        } else {
            occupied_items(arr, ws, (n - 1) as nat) + occupied(items[n - 1], ws)
        },
        _ => Set::empty(),
    }
}


proof fn lemma_lookup_index_value(entries: Seq<(Seq<char>, JsonView)>, key: Seq<char>)
    ensures
        match lookup_index(entries, key) {
            Some(i) => i < entries.len() && crate::json::lookup(entries, key) == Some(entries[i as int].1),
            None => crate::json::lookup(entries, key) is None,
        },
    decreases entries.len(),
{
    if entries.len() > 0 && entries[0].0 != key {
        lemma_lookup_index_value(entries.drop_first(), key);
    }
}

proof fn lemma_occupied_items_include(arr: JsonView, ws: Seq<char>, n: nat, i: int)
    requires
        arr is Array,
        0 <= i < n <= arr->Array_0.len(),
    ensures
        occupied(arr->Array_0[i], ws).subset_of(occupied_items(arr, ws, n)),
    decreases n,
{
    if i < n - 1 {
        lemma_occupied_items_include(arr, ws, (n - 1) as nat, i);
    }
}

/// The nodes an object lists under `key`, when it lists an array there.
pub open spec fn listed_nodes(v: JsonView, key: Seq<char>) -> Seq<JsonView> {
    match v.field(key) {
        Some(JsonView::Array(items)) => items,
        _ => Seq::empty(),
    }
}

/// Which workspaces hold windows: an object node of Sway's tree with an
/// `app_id` member, whatever its value (an XWayland window has a null one),
/// puts its workspace in the result when that workspace has a name; the
/// workspace of a node is its own name when it is a workspace node and
/// otherwise the one around it; and everything below the nodes an object
/// lists under `nodes` or `floating_nodes` counts for the object.
pub proof fn lemma_occupied_nodes(v: JsonView, ws: Seq<char>)
    ensures
        ({
            let w = if v.at("type"@).as_str() == Some("workspace"@) && v.at("name"@).as_str() is Some {
                v.at("name"@).as_str()->Some_0
            } else {
                ws
            };
            &&& v is Object && v.field("app_id"@) is Some && w.len() > 0 ==> occupied(v, ws).contains(w)
            &&& v is Object ==> forall|i: int|
                0 <= i < listed_nodes(v, "nodes"@).len() ==> occupied(
                    #[trigger] listed_nodes(v, "nodes"@)[i],
                    w,
                ).subset_of(occupied(v, ws))
            &&& v is Object ==> forall|i: int|
                0 <= i < listed_nodes(v, "floating_nodes"@).len() ==> occupied(
                    #[trigger] listed_nodes(v, "floating_nodes"@)[i],
                    w,
                ).subset_of(occupied(v, ws))
        }),
{
    let w = if v.at("type"@).as_str() == Some("workspace"@) && v.at("name"@).as_str() is Some {
        v.at("name"@).as_str()->Some_0
    } else {
        ws
    };
    if let JsonView::Object(entries) = v {
        assert(w == node_workspace(v, ws));
        lemma_listed_nodes_occupied(v, "nodes"@, w);
        lemma_listed_nodes_occupied(v, "floating_nodes"@, w);
    }
}

proof fn lemma_listed_nodes_occupied(v: JsonView, key: Seq<char>, w: Seq<char>)
    requires
        v is Object,
    ensures
        forall|i: int|
            0 <= i < listed_nodes(v, key).len() ==> occupied(#[trigger] listed_nodes(v, key)[i], w).subset_of(
                occupied_member(v, key, w),
            ),
{
    let entries = v->Object_0;
    lemma_lookup_index_value(entries, key);
    assert forall|i: int| 0 <= i < listed_nodes(v, key).len() implies occupied(
        #[trigger] listed_nodes(v, key)[i],
        w,
    ).subset_of(occupied_member(v, key, w)) by {
        let j = lookup_index(entries, key)->Some_0;
        let arr = entries[j as int].1;
        lemma_occupied_items_include(arr, w, arr->Array_0.len(), i);
    }
}

/// Adds `s` to a duplicate-free list unless it is already there.
fn insert_unique(out: &mut Vec<String>, s: &str)
    requires
        string_views(old(out)@).no_duplicates(),
    ensures
        string_views(final(out)@).no_duplicates(),
        string_views(final(out)@).to_set() == string_views(old(out)@).to_set().insert(s@),
{
    let ghost sv = string_views(out@);
    let mut i: usize = 0;
    while i < out.len()
        invariant
            0 <= i <= out.len(),
            sv == string_views(out@),
            sv.no_duplicates(),
            forall|j: int| 0 <= j < i ==> sv[j] != s@,
        decreases out.len() - i,
    {
        assert(sv[i as int] == out@[i as int]@);
        if str_eq(out[i].as_str(), s) {
            assert(sv.to_set().insert(s@) =~= sv.to_set()) by {
                assert(sv.contains(s@));
            }
            return;
        }
        i += 1;
    }
    out.push(String::from_str(s));
    assert(string_views(out@) =~= sv.push(s@));
    proof {
        sv.lemma_push_to_set_commute(s@);
        assert(!sv.contains(s@));
        assert forall|a: int, b: int|
            0 <= a < b < sv.push(s@).len() implies sv.push(s@)[a] != sv.push(s@)[b] by {
            if b == sv.len() {
                assert(sv[a] != s@);
            }
        }
    }
}

/// Adds the occupied workspaces below `node` (on workspace `ws`) to `out`.
#[verifier::loop_isolation(false)]
fn walk_tree(node: &Json, ws: &str, out: &mut Vec<String>)
    requires
        string_views(old(out)@).no_duplicates(),
    ensures
        string_views(final(out)@).no_duplicates(),
        string_views(final(out)@).to_set() == string_views(old(out)@).to_set() + occupied(node@, ws@),
    decreases node, 0nat,
{
    let ghost start = string_views(out@).to_set();
    match node {
        Json::Object(entries) => {
            let ghost ev = node@->Object_0;
            assert(ev =~= entries@.map_values(|e: (String, Json)| (e.0@, e.1@)));
            let is_ws = match node.get("type") {
                Some(t) => match t.as_str() {
                    Some(s) => str_eq(s, "workspace"),
                    None => false,
                },
                None => false,
            };
            let w: &str = if is_ws {
                match node.get("name") {
                    Some(n) => match n.as_str() {
                        Some(s) => s,
                        None => ws,
                    },
                    None => ws,
                }
            } else {
                ws
            };
            assert(w@ == node_workspace(node@, ws@));
            let has_app = node.get("app_id").is_some();
            if has_app && !w.is_empty() {
                insert_unique(out, w);
            }
            let ghost own = if node@.field("app_id"@) is Some && w@.len() > 0 {
                set![w@]
            } else {
                Set::empty()
            };
            assert(string_views(out@).to_set() =~= start + own);
            walk_member(entries, "nodes", w, out);
            walk_member(entries, "floating_nodes", w, out);
            assert(string_views(out@).to_set() =~= start + occupied(node@, ws@));
        },
        _ => {
            assert(string_views(out@).to_set() =~= start + occupied(node@, ws@));
        },
    }
}

/// Adds the occupied workspaces below the children an object's members list
/// under `key`.
#[verifier::loop_isolation(false)]
fn walk_member(entries: &Vec<(String, Json)>, key: &str, ws: &str, out: &mut Vec<String>)
    requires
        string_views(old(out)@).no_duplicates(),
    ensures
        string_views(final(out)@).no_duplicates(),
        string_views(final(out)@).to_set() == string_views(old(out)@).to_set() + occupied_member(
            JsonView::Object(entries@.map_values(|e: (String, Json)| (e.0@, e.1@))),
            key@,
            ws@,
        ),
    decreases entries, 0nat,
{
    let ghost start = string_views(out@).to_set();
    let ghost ev = entries@.map_values(|e: (String, Json)| (e.0@, e.1@));
    match member_index(entries, key) {
        None => {
            assert(start + Set::<Seq<char>>::empty() =~= start);
            assert(occupied_member(JsonView::Object(ev), key@, ws@) == Set::<Seq<char>>::empty());
        },
        Some(i) => {
            assert(ev[i as int] == (entries@[i as int].0@, entries@[i as int].1@));
            match &entries[i].1 {
                Json::Array(items) => {
                    let ghost arr = ev[i as int].1;
                    assert(arr->Array_0 =~= items@.map_values(|x: Json| x@));
                    let mut k: usize = 0;
                    assert(start + occupied_items(arr, ws@, 0) =~= start);
                    while k < items.len()
                        invariant
                            0 <= k <= items.len(),
                            string_views(out@).no_duplicates(),
                            string_views(out@).to_set() == start + occupied_items(arr, ws@, k as nat),
                        decreases items.len() - k,
                    {
                        assert(arr->Array_0[k as int] == items@[k as int]@);
                        walk_tree(&items[k], ws, out);
                        assert(string_views(out@).to_set() =~= start + occupied_items(
                            arr,
                            ws@,
                            (k + 1) as nat,
                        ));
                        k += 1;
                    }
                    assert(lookup_index(ev, key@) == Some(i as nat));
                    assert(occupied_member(JsonView::Object(ev), key@, ws@) == occupied_items(arr, ws@, items.len() as nat));
                },
                _ => {
                    assert(start + Set::<Seq<char>>::empty() =~= start);
                    assert(occupied_member(JsonView::Object(ev), key@, ws@) == Set::<Seq<char>>::empty());
                },
            }
        },
    }
}

/// The workspaces of Sway's tree (a get-tree reply) that already hold a
/// window, each listed once.
pub fn occupied_workspaces(tree: &Json) -> (r: Vec<String>)
    ensures
        string_views(r@).no_duplicates(),
        string_views(r@).to_set() == occupied(tree@, Seq::empty()),
{
    let mut out: Vec<String> = Vec::new();
    assert(string_views(out@) =~= Seq::<Seq<char>>::empty());
    proof {
        reveal_strlit("");
        assert(""@ =~= Seq::<char>::empty());
        assert(Seq::<Seq<char>>::empty().to_set() =~= Set::<Seq<char>>::empty());
    }
    walk_tree(tree, "", &mut out);
    assert(string_views(out@).to_set() =~= occupied(tree@, Seq::empty()));
    out
}


/// The workspaces that already hold a window, read from the bytes of a
/// reply to a get-tree message, each listed once; `None` when they are not
/// JSON.
pub fn occupied_in_reply(bytes: &[u8]) -> (r: Option<Vec<String>>)
    ensures
        match json_of(bytes@) {
            None => r is None,
            Some(tree) => r is Some && string_views(r->Some_0@).no_duplicates() && string_views(
                r->Some_0@,
            ).to_set() == occupied(tree, Seq::empty()),
        },
{
    match parse_json(bytes) {
        None => None,
        Some(tree) => Some(occupied_workspaces(&tree)),
    }
}

/// The workspace numbers among `names`: the names that parse as `u32`.
pub open spec fn used_numbers(names: Seq<Seq<char>>) -> Set<u32> {
    Set::new(|n: u32| exists|i: int| 0 <= i < names.len() && parse_u32_spec(#[trigger] names[i]) == Some(n))
}

/// If every number in `1..n` occurs in `v`, then `v` has at least `n - 1`
/// elements.
proof fn lemma_pigeonhole(v: Seq<u32>, n: int)
    requires
        1 <= n <= u32::MAX + 1,
        forall|k: u32| 1 <= k < n ==> v.contains(k),
    ensures
        n - 1 <= v.len(),
{
    let w = v.map_values(|x: u32| x as int);
    let s = set_int_range(1, n);
    assert(s.subset_of(w.to_set())) by {
        assert forall|k: int| s.contains(k) implies w.to_set().contains(k) by {
            let ku = k as u32;
            assert(ku as int == k);
            assert(v.contains(ku));
            let j = choose|j: int| 0 <= j < v.len() && v[j] == ku;
            assert(w[j] == k);
        }
    }
    lemma_int_range(1, n);
    w.lemma_cardinality_of_set();
    lemma_len_subset(s, w.to_set());
}

/// The lowest positive workspace number that no listed workspace name
/// uses (the workspace a definition is launched into).
pub fn next_free_workspace(names: &Vec<String>) -> (r: u32)
    requires
        names@.len() < u32::MAX,
    ensures
        r >= 1,
        !used_numbers(string_views(names@)).contains(r),
        forall|k: u32| 1 <= k < r ==> used_numbers(string_views(names@)).contains(k),
{
    let ghost nv = string_views(names@);
    let mut used: Vec<u32> = Vec::new();
    let mut i: usize = 0;
    while i < names.len()
        invariant
            0 <= i <= names.len(),
            nv == string_views(names@),
            used.len() <= i,
            forall|k: u32| #[trigger] used@.contains(k) <==> exists|j: int| 0 <= j < i && parse_u32_spec(#[trigger] nv[j]) == Some(k),
        decreases names.len() - i,
    {
        assert(nv[i as int] == names@[i as int]@);
        match parse_u32(names[i].as_str()) {
            Some(n) => {
                let ghost before = used@;
                used.push(n);
                assert forall|k: u32| #[trigger] used@.contains(k) <==> exists|j: int| 0 <= j < i + 1 && parse_u32_spec(#[trigger] nv[j]) == Some(k) by {
                    if used@.contains(k) {
                        let m = choose|m: int| 0 <= m < used@.len() && used@[m] == k;
                        if m < before.len() {
                            assert(before.contains(k));
                        }
                    }
                    if exists|j: int| 0 <= j < i + 1 && parse_u32_spec(#[trigger] nv[j]) == Some(k) {
                        let j = choose|j: int| 0 <= j < i + 1 && parse_u32_spec(#[trigger] nv[j]) == Some(k);
                        if j < i {
                            assert(before.contains(k));
                            let m = choose|m: int| 0 <= m < before.len() && before[m] == k;
                            assert(used@[m] == k);
                        } else {
                            assert(used@[before.len() as int] == k);
                        }
                    }
                }
            },
            None => {
                assert forall|k: u32| #[trigger] used@.contains(k) <==> exists|j: int| 0 <= j < i + 1 && parse_u32_spec(#[trigger] nv[j]) == Some(k) by {
                    if exists|j: int| 0 <= j < i + 1 && parse_u32_spec(#[trigger] nv[j]) == Some(k) {
                        let j = choose|j: int| 0 <= j < i + 1 && parse_u32_spec(#[trigger] nv[j]) == Some(k);
                        assert(j != i);
                    }
                }
            },
        }
        i += 1;
    }
    let mut n: u32 = 1;
    while crate::proc::vec_contains(&used, n)
        invariant
            n >= 1,
            used.len() <= names.len(),
            names@.len() < u32::MAX,
            forall|k: u32| 1 <= k < n ==> used@.contains(k),
        decreases used.len() + 1 - n,
    {
        proof {
            assert forall|k: u32| 1 <= k < n + 1 implies used@.contains(k) by {
                if k == n {
                }
            }
            lemma_pigeonhole(used@, n + 1);
        }
        n += 1;
    }
    proof {
        assert forall|k: u32| 1 <= k < n implies used_numbers(nv).contains(k) by {
            assert(used@.contains(k));
        }
        if used_numbers(nv).contains(n) {
            assert(used@.contains(n));
        }
    }
    n
}


/// The profile a file of the layouts directory defines: a `.json` file with a
/// non-empty stem, named by that stem, except `startup.json` (which lists the
/// startup sequence).
pub open spec fn profile_of(file: Seq<char>) -> Option<Seq<char>> {
    if file.len() > 5 && file.subrange(file.len() - 5, file.len() as int) == ".json"@ {
        let stem = file.subrange(0, file.len() - 5);
        if stem == "startup"@ {
            None
        } else {
            Some(stem)
        }
    } else {
        None
    }
}

/// The profiles the first `n` files define, in order.
pub open spec fn profiles_in(files: Seq<Seq<char>>, n: nat) -> Seq<Seq<char>>
    decreases n,
{
    if n == 0 || n > files.len() {
        Seq::empty()
    } else {
        profiles_in(files, (n - 1) as nat) + match profile_of(files[n - 1]) {
            Some(p) => seq![p],
            None => Seq::empty(),
        }
    }
}

pub open spec fn lex_sorted(s: Seq<Seq<char>>) -> bool {
    forall|i: int, j: int| 0 <= i < j < s.len() ==> lex_le(s[i], s[j])
}

fn profile_name(file: &str) -> (r: Option<String>)
    ensures
        match r {
            Some(p) => profile_of(file@) == Some(p@),
            None => profile_of(file@) is None,
        },
{
    proof {
        reveal_strlit(".json");
    }
    let cs = chars_of(file);
    let len = cs.len();
    if len > 5 && cs[len - 5] == '.' && cs[len - 4] == 'j' && cs[len - 3] == 's' && cs[len - 2]
        == 'o' && cs[len - 1] == 'n' {
        assert(file@.subrange(len - 5, len as int) =~= ".json"@);
        let stem_chars = cs.as_slice().split_at(len - 5).0;
        let stem = string_of(stem_chars);
        assert(stem@ =~= file@.subrange(0, len - 5));
        if str_eq(stem.as_str(), "startup") {
            None
        } else {
            Some(stem)
        }
    } else {
        proof {
            if len > 5 {
                let e = file@.subrange(len - 5, len as int);
                if e == ".json"@ {
                    assert(e[0] == '.' && e[1] == 'j' && e[2] == 's' && e[3] == 'o' && e[4] == 'n');
                }
            }
        }
        None
    }
}

/// Inserts `name` into a sorted list after every element not above it.
fn insert_sorted(sorted: &mut Vec<String>, name: String)
    requires
        lex_sorted(string_views(old(sorted)@)),
    ensures
        lex_sorted(string_views(final(sorted)@)),
        string_views(final(sorted)@).to_multiset() == string_views(old(sorted)@).to_multiset().insert(
            name@,
        ),
{
    let ghost sv = string_views(sorted@);
    let mut p: usize = 0;
    while p < sorted.len() && str_le(sorted[p].as_str(), name.as_str())
        invariant
            0 <= p <= sorted.len(),
            sv == string_views(sorted@),
            lex_sorted(sv),
            forall|i: int| 0 <= i < p ==> lex_le(#[trigger] sv[i], name@),
        decreases sorted.len() - p,
    {
        assert(sv[p as int] == sorted@[p as int]@);
        p += 1;
    }
    proof {
        if p < sorted.len() {
            assert(sv[p as int] == sorted@[p as int]@);
            assert(!lex_le(sv[p as int], name@));
            crate::text::lemma_lex_total(sv[p as int], name@);
        }
    }
    let ghost nv = name@;
    sorted.insert(p, name);
    assert(string_views(sorted@) =~= sv.insert(p as int, nv));
    proof {
        let t = sv.insert(p as int, nv);
        assert forall|i: int, j: int| 0 <= i < j < t.len() implies lex_le(t[i], t[j]) by {
            if j < p {
                assert(t[i] == sv[i] && t[j] == sv[j]);
            } else if j == p {
                assert(t[i] == sv[i]);
            } else if i < p {
                assert(t[i] == sv[i] && t[j] == sv[j - 1]);
                assert(lex_le(sv[i], nv));
                crate::text::lemma_lex_total(sv[p as int], nv);
                if p < j - 1 {
                    crate::text::lemma_lex_trans(nv, sv[p as int], sv[j - 1]);
                }
                crate::text::lemma_lex_trans(sv[i], nv, sv[j - 1]);
            } else if i == p {
                assert(t[j] == sv[j - 1]);
                crate::text::lemma_lex_total(sv[p as int], nv);
                if p < j - 1 {
                    crate::text::lemma_lex_trans(nv, sv[p as int], sv[j - 1]);
                }
            } else {
                assert(t[i] == sv[i - 1] && t[j] == sv[j - 1]);
            }
        }
        vstd::seq_lib::to_multiset_insert(sv, p as int, nv);
    }
}

/// The profiles a layouts directory listing defines, sorted by name (what
/// `list` prints).
pub fn profile_names(files: &Vec<String>) -> (r: Vec<String>)
    ensures
        lex_sorted(string_views(r@)),
        string_views(r@).to_multiset() == profiles_in(string_views(files@), files.len() as nat).to_multiset(),
{
    let ghost fv = string_views(files@);
    let mut sorted: Vec<String> = Vec::new();
    proof {
        assert(string_views(sorted@) =~= Seq::<Seq<char>>::empty());
        vstd::seq_lib::lemma_multiset_commutative::<Seq<char>>(Seq::empty(), Seq::empty());
        assert(Seq::<Seq<char>>::empty().to_multiset() =~= profiles_in(fv, 0).to_multiset());
    }
    let mut i: usize = 0;
    while i < files.len()
        invariant
            0 <= i <= files.len(),
            fv == string_views(files@),
            lex_sorted(string_views(sorted@)),
            string_views(sorted@).to_multiset() == profiles_in(fv, i as nat).to_multiset(),
        decreases files.len() - i,
    {
        assert(fv[i as int] == files@[i as int]@);
        let ghost before = profiles_in(fv, i as nat);
        match profile_name(files[i].as_str()) {
            Some(p) => {
                let ghost pv = p@;
                insert_sorted(&mut sorted, p);
                proof {
                    assert(profiles_in(fv, (i + 1) as nat) == before.push(pv));
                    vstd::seq_lib::to_multiset_build(before, pv);
                }
            },
            None => {
                assert(profiles_in(fv, (i + 1) as nat) =~= before);
            },
        }
        i += 1;
    }
    sorted
}


/// The workspaces to build and the apps to launch for them: each workspace
/// with its layout tree, and every app of every tree bound to its workspace;
/// and the workspace to focus once they are built.
pub struct Plan {
    pub workspaces: Vec<(String, LayoutNode)>,
    pub apps: Vec<AppInfo>,
    pub focus: Option<String>,
}

pub open spec fn opt_view(o: Option<String>) -> Option<Seq<char>> {
    match o {
        Some(s) => Some(s@),
        None => None,
    }
}

pub open spec fn plan_workspaces(ws: Seq<(String, LayoutNode)>) -> Seq<(Seq<char>, NodeView)> {
    ws.map_values(|w: (String, LayoutNode)| (w.0@, w.1@))
}

/// The name of the `i`-th workspace of the startup sequence: `i + 1`.
pub fn startup_workspace(i: usize) -> (s: String)
    requires
        i < usize::MAX,
    ensures
        s@ == decimal((i + 1) as nat),
{
    decimal_string((i as u64) + 1)
}

impl Plan {
    /// A plan with no workspace; the first workspace added is the one to
    /// focus.
    pub fn new() -> (p: Plan)
        ensures
            plan_workspaces(p.workspaces@) == Seq::<(Seq<char>, NodeView)>::empty(),
            app_views(p.apps@) == Seq::<AppView>::empty(),
            p.focus is None,
    {
        let p = Plan { workspaces: Vec::new(), apps: Vec::new(), focus: None };
        assert(plan_workspaces(p.workspaces@) =~= Seq::<(Seq<char>, NodeView)>::empty());
        assert(app_views(p.apps@) =~= Seq::<AppView>::empty());
        p
    }

    /// A plan with no workspace that focuses workspace `ws` once built.
    pub fn with_focus(ws: &str) -> (p: Plan)
        ensures
            plan_workspaces(p.workspaces@) == Seq::<(Seq<char>, NodeView)>::empty(),
            app_views(p.apps@) == Seq::<AppView>::empty(),
            opt_view(p.focus) == Some(ws@),
    {
        let p = Plan { workspaces: Vec::new(), apps: Vec::new(), focus: Some(String::from_str(ws)) };
        assert(plan_workspaces(p.workspaces@) =~= Seq::<(Seq<char>, NodeView)>::empty());
        assert(app_views(p.apps@) =~= Seq::<AppView>::empty());
        p
    }

    /// Adds workspace `ws` built from definition `def`: its tree, and its
    /// apps after those already planned. A definition that is no layout tree
    /// leaves the plan as it was.
    pub fn add_workspace(&mut self, ws: &str, def: &Json) -> (r: Result<(), ConfigError>)
        ensures
            match parse_spec(def@, Seq::empty()) {
                Ok(tree) => r is Ok && plan_workspaces(final(self).workspaces@) == plan_workspaces(
                    old(self).workspaces@,
                ).push((ws@, tree)) && app_views(final(self).apps@) == app_views(old(self).apps@)
                    + apps_in(tree, ws@) && opt_view(final(self).focus) == match old(self).focus {
                    Some(f) => Some(f@),
                    None => Some(ws@),
                },
                Err(e) => r is Err && r->Err_0@ == e && plan_workspaces(final(self).workspaces@)
                    == plan_workspaces(old(self).workspaces@) && app_views(final(self).apps@)
                    == app_views(old(self).apps@) && final(self).focus == old(self).focus,
            },
    {
        match build_layout_tree(def) {
            Err(e) => Err(e),
            Ok(tree) => {
                collect_apps(&tree, ws, &mut self.apps);
                let ghost before = plan_workspaces(self.workspaces@);
                let entry = (String::from_str(ws), tree);
                let ghost ev = (entry.0@, entry.1@);
                self.workspaces.push(entry);
                assert(plan_workspaces(self.workspaces@) =~= before.push(ev));
                if self.focus.is_none() {
                    self.focus = Some(String::from_str(ws));
                }
                Ok(())
            },
        }
    }

    /// The plan of a profile: its workspaces in order, each built from its
    /// definition, with their apps; the error of the first definition that is
    /// no layout tree.
    pub fn from_profile(p: &Profile) -> (r: Result<Plan, ConfigError>)
        ensures
            match profile_plan_spec(p@.workspaces, p@.workspaces.len()) {
                Ok((trees, apps)) => r is Ok && plan_workspaces(r->Ok_0.workspaces@) == trees
                    && app_views(r->Ok_0.apps@) == apps && opt_view(r->Ok_0.focus) == if p@.workspaces.len()
                    > 0 {
                    Some(p@.workspaces[0].0)
                } else {
                    None
                },
                Err(e) => r is Err && r->Err_0@ == e,
            },
            r matches Ok(plan) ==> plan.workspaces.len() == p.workspaces.len() && (forall|i: int|
                0 <= i < p.workspaces.len() ==> (#[trigger] plan.workspaces@[i]).0@ == p.workspaces@[i].0@)
                && forall|j: int|
                0 <= j < plan.apps.len() ==> bound_to_key(
                    #[trigger] plan.apps@[j]@,
                    p@.workspaces,
                    p.workspaces.len() as nat,
                ),
    {
        let ghost wv = p@.workspaces;
        let mut plan = Plan::new();
        let mut i: usize = 0;
        while i < p.workspaces.len()
            invariant
                0 <= i <= p.workspaces.len(),
                wv == p@.workspaces,
                wv.len() == p.workspaces.len(),
                profile_plan_spec(wv, i as nat) == Ok::<(Seq<(Seq<char>, NodeView)>, Seq<AppView>), ConfigErrorView>(
                    (plan_workspaces(plan.workspaces@), app_views(plan.apps@)),
                ),
                opt_view(plan.focus) == if i > 0 {
                    Some(wv[0].0)
                } else {
                    None::<Seq<char>>
                },
            decreases p.workspaces.len() - i,
        {
            assert(wv[i as int] == (p.workspaces@[i as int].0@, p.workspaces@[i as int].1@));
            match plan.add_workspace(p.workspaces[i].0.as_str(), &p.workspaces[i].1) {
                Ok(()) => {},
                Err(e) => {
                    proof {
                        lemma_profile_plan_error_persists(wv, (i + 1) as nat, wv.len());
                    }
                    return Err(e);
                },
            }
            i += 1;
        }
        proof {
            let pw = plan_workspaces(plan.workspaces@);
            let av = app_views(plan.apps@);
            assert(i == wv.len());
            lemma_profile_plan_keys(wv, wv.len(), pw, av);
            assert forall|k: int| 0 <= k < p.workspaces.len() implies (#[trigger] plan.workspaces@[k]).0@
                == p.workspaces@[k].0@ by {
                assert(pw[k].0 == plan.workspaces@[k].0@);
                assert(wv[k].0 == p.workspaces@[k].0@);
            }
            assert forall|j: int| 0 <= j < plan.apps.len() implies bound_to_key(
                #[trigger] plan.apps@[j]@,
                p@.workspaces,
                p.workspaces.len() as nat,
            ) by {
                assert(av.len() == plan.apps.len());
                assert(av[j] == plan.apps@[j]@);
                assert(bound_to_key(av[j], wv, wv.len()));
            }
        }
        Ok(plan)
    }

    /// Leaves out of the plan the workspaces named in `occupied`, with their
    /// apps; the rest keep their order.
    pub fn skip_occupied(&mut self, occupied: &Vec<String>)
        ensures
            plan_workspaces(final(self).workspaces@) == kept_workspaces(
                plan_workspaces(old(self).workspaces@),
                string_views(occupied@),
            ),
            app_views(final(self).apps@) == kept_apps(app_views(old(self).apps@), string_views(occupied@)),
            final(self).focus == old(self).focus,
    {
        let ghost ov = string_views(occupied@);
        let mut rest: Vec<(String, LayoutNode)> = Vec::new();
        std::mem::swap(&mut rest, &mut self.workspaces);
        let ghost orig = plan_workspaces(rest@);
        assert(orig == plan_workspaces(old(self).workspaces@));
        assert(orig.len() == rest.len());
        assert(plan_workspaces(self.workspaces@) =~= kept_workspaces(orig.take(0), ov));
        let mut i: usize = 0;
        while rest.len() > 0
            invariant
                i <= orig.len(),
                orig.len() <= usize::MAX,
                ov == string_views(occupied@),
                plan_workspaces(rest@) == orig.skip(i as int),
                plan_workspaces(self.workspaces@) == kept_workspaces(orig.take(i as int), ov),
                self.apps@ == old(self).apps@,
                self.focus == old(self).focus,
            decreases rest.len(),
        {
            let ghost before = plan_workspaces(self.workspaces@);
            let ghost rv = plan_workspaces(rest@);
            assert(rv.len() == rest.len());
            assert(rv[0] == (rest@[0].0@, rest@[0].1@) && rv[0] == orig[i as int]);
            let ghost old_rest = rest@;
            let w = rest.remove(0);
            assert forall|j: int| 0 <= j < rest.len() implies #[trigger] plan_workspaces(rest@)[j] == orig.skip(i + 1)[j] by {
                assert(rest@[j] == old_rest[j + 1]);
                assert(rv[j + 1] == (old_rest[j + 1].0@, old_rest[j + 1].1@));
            }
            assert(plan_workspaces(rest@) =~= orig.skip(i + 1));
            assert(orig.take(i + 1).drop_last() =~= orig.take(i as int));
            assert(orig.take(i + 1).last() == orig[i as int]);
            proof {
                lemma_filter_take(orig, i as int, workspace_free(ov));
            }
            assert(kept_workspaces(orig.take(i + 1), ov) == if !ov.contains(orig[i as int].0) {
                kept_workspaces(orig.take(i as int), ov).push(orig[i as int])
            } else {
                kept_workspaces(orig.take(i as int), ov)
            });
            if !contains_string(occupied, w.0.as_str()) {
                let ghost wv = (w.0@, w.1@);
                self.workspaces.push(w);
                assert(plan_workspaces(self.workspaces@) =~= before.push(wv));
            }
            i += 1;
        }
        assert(plan_workspaces(rest@).len() == rest.len());
        assert(orig.take(i as int) =~= orig);
        let ghost kept_ws = plan_workspaces(self.workspaces@);
        let mut rest_apps: Vec<AppInfo> = Vec::new();
        std::mem::swap(&mut rest_apps, &mut self.apps);
        let ghost orig_apps = app_views(rest_apps@);
        assert(orig_apps == app_views(old(self).apps@));
        assert(orig_apps.len() == rest_apps.len());
        assert(app_views(self.apps@) =~= kept_apps(orig_apps.take(0), ov));
        let mut k: usize = 0;
        while rest_apps.len() > 0
            invariant
                k <= orig_apps.len(),
                orig_apps.len() <= usize::MAX,
                ov == string_views(occupied@),
                app_views(rest_apps@) == orig_apps.skip(k as int),
                app_views(self.apps@) == kept_apps(orig_apps.take(k as int), ov),
                plan_workspaces(self.workspaces@) == kept_ws,
                self.focus == old(self).focus,
            decreases rest_apps.len(),
        {
            let ghost before = app_views(self.apps@);
            let ghost rv = app_views(rest_apps@);
            assert(rv.len() == rest_apps.len());
            assert(rv[0] == rest_apps@[0]@ && rv[0] == orig_apps[k as int]);
            let ghost old_rest = rest_apps@;
            let a = rest_apps.remove(0);
            assert forall|j: int| 0 <= j < rest_apps.len() implies #[trigger] app_views(rest_apps@)[j] == orig_apps.skip(k + 1)[j] by {
                assert(rest_apps@[j] == old_rest[j + 1]);
                assert(rv[j + 1] == old_rest[j + 1]@);
            }
            assert(app_views(rest_apps@) =~= orig_apps.skip(k + 1));
            assert(orig_apps.take(k + 1).drop_last() =~= orig_apps.take(k as int));
            assert(orig_apps.take(k + 1).last() == orig_apps[k as int]);
            proof {
                lemma_filter_take(orig_apps, k as int, app_free(ov));
            }
            assert(kept_apps(orig_apps.take(k + 1), ov) == if !ov.contains(orig_apps[k as int].workspace) {
                kept_apps(orig_apps.take(k as int), ov).push(orig_apps[k as int])
            } else {
                kept_apps(orig_apps.take(k as int), ov)
            });
            if !contains_string(occupied, a.workspace.as_str()) {
                let ghost av = a@;
                self.apps.push(a);
                assert(app_views(self.apps@) =~= before.push(av));
            }
            k += 1;
        }
        assert(app_views(rest_apps@).len() == rest_apps.len());
        assert(orig_apps.take(k as int) =~= orig_apps);
    }

    /// The command that focuses the plan's workspace once it is built:
    /// `workspace <focus>`, if the plan has one.
    pub fn focus_command(&self) -> (r: Option<String>)
        ensures
            match self.focus {
                Some(f) => r is Some && r->Some_0@ == "workspace "@ + f@,
                None => r is None,
            },
    {
        match &self.focus {
            Some(f) => Some(workspace_command(f.as_str())),
            None => None,
        }
    }

    /// The planned workspaces that already hold windows, in plan order.
    pub fn conflicts(&self, occupied: &Vec<String>) -> (r: Vec<String>)
        ensures
            string_views(r@) == conflicts_spec(
                plan_workspaces(self.workspaces@),
                string_views(occupied@),
                self.workspaces.len() as nat,
            ),
            r@.len() == 0 <==> forall|i: int|
                0 <= i < self.workspaces.len() ==> !string_views(occupied@).contains(
                    #[trigger] plan_workspaces(self.workspaces@)[i].0,
                ),
    {
        let ghost pw = plan_workspaces(self.workspaces@);
        let ghost ov = string_views(occupied@);
        let mut r: Vec<String> = Vec::new();
        let mut i: usize = 0;
        assert(string_views(r@) =~= Seq::<Seq<char>>::empty());
        while i < self.workspaces.len()
            invariant
                0 <= i <= self.workspaces.len(),
                pw == plan_workspaces(self.workspaces@),
                ov == string_views(occupied@),
                string_views(r@) == conflicts_spec(pw, ov, i as nat),
            decreases self.workspaces.len() - i,
        {
            let ghost before = string_views(r@);
            assert(pw[i as int].0 == self.workspaces@[i as int].0@);
            let name = self.workspaces[i].0.as_str();
            let mut found = false;
            let mut k: usize = 0;
            while k < occupied.len()
                invariant
                    0 <= k <= occupied.len(),
                    ov == string_views(occupied@),
                    found == exists|j: int| 0 <= j < k && #[trigger] ov[j] == name@,
                decreases occupied.len() - k,
            {
                assert(ov[k as int] == occupied@[k as int]@);
                if str_eq(occupied[k].as_str(), name) {
                    found = true;
                }
                k += 1;
            }
            if found {
                r.push(String::from_str(name));
                assert(string_views(r@) =~= before + seq![name@]);
            } else {
                assert(before + Seq::<Seq<char>>::empty() =~= before);
            }
            i += 1;
        }
        proof {
            lemma_no_conflicts(pw, ov, pw.len());
        }
        r
    }
}

/// No planned workspace among the first `n` is reported exactly when none
/// of them is occupied.
proof fn lemma_no_conflicts(ws: Seq<(Seq<char>, NodeView)>, occupied: Seq<Seq<char>>, n: nat)
    requires
        n <= ws.len(),
    ensures
        conflicts_spec(ws, occupied, n).len() == 0 <==> forall|i: int|
            0 <= i < n ==> !occupied.contains(#[trigger] ws[i].0),
    decreases n,
{
    if n > 0 {
        lemma_no_conflicts(ws, occupied, (n - 1) as nat);
        if conflicts_spec(ws, occupied, n).len() == 0 {
            assert forall|i: int| 0 <= i < n implies !occupied.contains(#[trigger] ws[i].0) by {
                if i == n - 1 {
                } else {
                    assert(0 <= i < n - 1);
                }
            }
        }
    }
}

/// The plan of the first `n` workspaces of a profile: the planned
/// workspaces and apps, or the error of the first definition that is no
/// layout tree.
pub open spec fn profile_plan_spec(ws: Seq<(Seq<char>, JsonView)>, n: nat) -> Result<(Seq<(Seq<char>, NodeView)>, Seq<AppView>), ConfigErrorView>
    decreases n,
{
    if n == 0 || n > ws.len() {
        Ok((Seq::empty(), Seq::empty()))
    } else {
        match profile_plan_spec(ws, (n - 1) as nat) {
            Err(e) => Err(e),
            Ok((trees, apps)) => match parse_spec(ws[n - 1].1, Seq::empty()) {
                Err(e) => Err(e),
                Ok(t) => Ok((trees.push((ws[n - 1].0, t)), apps + apps_in(t, ws[n - 1].0))),
            },
        }
    }
}

/// Every app of a tree planned for workspace `w` is bound to `w`.
proof fn lemma_apps_in_bound(t: NodeView, w: Seq<char>)
    ensures
        forall|j: int| 0 <= j < apps_in(t, w).len() ==> (#[trigger] apps_in(t, w)[j]).workspace == w,
    decreases t, 0nat,
{
    match t {
        NodeView::Container { children, .. } => {
            lemma_apps_in_children_bound(children, w, children.len());
            assert(apps_in(t, w) == apps_in_children(children, w, children.len()));
        },
        NodeView::App { path, cmd } => {
            if cmd.len() > 0 {
                assert(apps_in(t, w) == seq![AppView { cmd, workspace: w, path }]);
            } else {
                assert(apps_in(t, w).len() == 0);
            }
        },
    }
}

/// Whether `a` is bound to one of the first `n` keys of `ws`.
pub open spec fn bound_to_key(a: AppView, ws: Seq<(Seq<char>, JsonView)>, n: nat) -> bool {
    exists|i: int| 0 <= i < n && ws[i].0 == a.workspace
}

proof fn lemma_apps_in_children_bound(children: Seq<NodeView>, w: Seq<char>, k: nat)
    ensures
        forall|j: int|
            0 <= j < apps_in_children(children, w, k).len() ==> (#[trigger] apps_in_children(
                children,
                w,
                k,
            )[j]).workspace == w,
    decreases children, k,
{
    if k > 0 && k <= children.len() {
        lemma_apps_in_children_bound(children, w, (k - 1) as nat);
        lemma_apps_in_bound(children[k - 1], w);
        let a = apps_in_children(children, w, (k - 1) as nat);
        let b = apps_in(children[k - 1], w);
        assert forall|j: int| 0 <= j < (a + b).len() implies (#[trigger] (a + b)[j]).workspace == w by {
            if j < a.len() {
                assert((a + b)[j] == a[j]);
            } else {
                assert((a + b)[j] == b[j - a.len()]);
            }
        }
    }
}

/// A profile's plan is named by the profile's keys: the `i`-th planned
/// workspace is the profile's `i`-th key with the tree of its definition,
/// and every planned app is bound to one of the keys.
pub proof fn lemma_profile_plan_keys(
    ws: Seq<(Seq<char>, JsonView)>,
    n: nat,
    trees: Seq<(Seq<char>, NodeView)>,
    apps: Seq<AppView>,
)
    requires
        n <= ws.len(),
        profile_plan_spec(ws, n) == Ok::<(Seq<(Seq<char>, NodeView)>, Seq<AppView>), ConfigErrorView>(
            (trees, apps),
        ),
    ensures
        trees.len() == n,
        forall|i: int|
            0 <= i < n ==> (#[trigger] trees[i]).0 == ws[i].0 && parse_spec(ws[i].1, Seq::empty()) == Ok::<
                NodeView,
                ConfigErrorView,
            >(trees[i].1),
        forall|j: int| 0 <= j < apps.len() ==> bound_to_key(#[trigger] apps[j], ws, n),
    decreases n,
{
    if n > 0 {
        let prev = profile_plan_spec(ws, (n - 1) as nat);
        let (t0, a0) = prev->Ok_0;
        lemma_profile_plan_keys(ws, (n - 1) as nat, t0, a0);
        let t = parse_spec(ws[n - 1].1, Seq::empty())->Ok_0;
        lemma_apps_in_bound(t, ws[n - 1].0);
        let extra = apps_in(t, ws[n - 1].0);
        assert(apps == a0 + extra);
        assert(trees == t0.push((ws[n - 1].0, t)));
        assert forall|j: int| 0 <= j < apps.len() implies bound_to_key(#[trigger] apps[j], ws, n) by {
            if j < a0.len() {
                assert(apps[j] == a0[j]);
                assert(bound_to_key(a0[j], ws, (n - 1) as nat));
                let i = choose|i: int| 0 <= i < n - 1 && ws[i].0 == a0[j].workspace;
                assert(ws[i].0 == apps[j].workspace);
            } else {
                assert(apps[j] == extra[j - a0.len()]);
                assert(apps[j].workspace == ws[n - 1].0);
            }
        }
        assert forall|i: int| 0 <= i < n implies (#[trigger] trees[i]).0 == ws[i].0 && parse_spec(
            ws[i].1,
            Seq::empty(),
        ) == Ok::<NodeView, ConfigErrorView>(trees[i].1) by {
            if i < n - 1 {
                assert(trees[i] == t0[i]);
            }
        }
    }
}

proof fn lemma_profile_plan_error_persists(ws: Seq<(Seq<char>, JsonView)>, m: nat, n: nat)
    requires
        m <= n <= ws.len(),
        profile_plan_spec(ws, m) is Err,
    ensures
        profile_plan_spec(ws, n) == profile_plan_spec(ws, m),
    decreases n - m,
{
    if m < n {
        lemma_profile_plan_error_persists(ws, m, (n - 1) as nat);
    }
}

/// Whether a planned workspace is not named in `occupied`.
pub open spec fn workspace_free(occupied: Seq<Seq<char>>) -> spec_fn((Seq<char>, NodeView)) -> bool {
    |w: (Seq<char>, NodeView)| !occupied.contains(w.0)
}

/// Whether an app's workspace is not named in `occupied`.
pub open spec fn app_free(occupied: Seq<Seq<char>>) -> spec_fn(AppView) -> bool {
    |a: AppView| !occupied.contains(a.workspace)
}

/// The planned workspaces not named in `occupied`, in order.
pub open spec fn kept_workspaces(ws: Seq<(Seq<char>, NodeView)>, occupied: Seq<Seq<char>>) -> Seq<(Seq<char>, NodeView)> {
    ws.filter(workspace_free(occupied))
}

/// The apps whose workspace is not named in `occupied`, in order.
pub open spec fn kept_apps(apps: Seq<AppView>, occupied: Seq<Seq<char>>) -> Seq<AppView> {
    apps.filter(app_free(occupied))
}

proof fn lemma_filter_take<A>(s: Seq<A>, i: int, p: spec_fn(A) -> bool)
    requires
        0 <= i < s.len(),
    ensures
        s.take(i + 1).filter(p) == if p(s[i]) {
            s.take(i).filter(p).push(s[i])
        } else {
            s.take(i).filter(p)
        },
{
    reveal(Seq::filter);
    assert(s.take(i + 1).drop_last() =~= s.take(i));
    assert(s.take(i + 1).last() == s[i]);
}

/// Whether `s` is one of the strings of `v`.
fn contains_string(v: &Vec<String>, s: &str) -> (r: bool)
    ensures
        r == string_views(v@).contains(s@),
{
    let ghost sv = string_views(v@);
    let mut i: usize = 0;
    while i < v.len()
        invariant
            0 <= i <= v.len(),
            sv == string_views(v@),
            forall|j: int| 0 <= j < i ==> sv[j] != s@,
        decreases v.len() - i,
    {
        assert(sv[i as int] == v@[i as int]@);
        if str_eq(v[i].as_str(), s) {
            return true;
        }
        i += 1;
    }
    false
}

/// The names of the first `n` planned workspaces that occur in `occupied`.
pub open spec fn conflicts_spec(ws: Seq<(Seq<char>, NodeView)>, occupied: Seq<Seq<char>>, n: nat) -> Seq<Seq<char>>
    decreases n,
{
    if n == 0 || n > ws.len() {
        Seq::empty()
    } else {
        conflicts_spec(ws, occupied, (n - 1) as nat) + if occupied.contains(ws[n - 1].0) {
            seq![ws[n - 1].0]
        } else {
            Seq::empty()
        }
    }
}

/// The root layout of a tree, when the root is a container.
pub fn root_layout(tree: &LayoutNode) -> (r: Option<Layout>)
    ensures
        r == match tree@ {
            NodeView::Container { layout, .. } => Some(layout),
            _ => None::<Layout>,
        },
{
    match tree {
        LayoutNode::Container { layout, .. } => Some(*layout),
        _ => None,
    }
}

/// The daemon's state: the layout each startup workspace must keep, and the
/// focused workspace.
pub struct DaemonState {
    layouts: Vec<(String, Layout)>,
    current: Option<String>,
}

pub struct DaemonView {
    pub layouts: Seq<(Seq<char>, Layout)>,
    pub current: Option<Seq<char>>,
}

impl View for DaemonState {
    type V = DaemonView;

    closed spec fn view(&self) -> DaemonView {
        DaemonView {
            layouts: self.layouts@.map_values(|e: (String, Layout)| (e.0@, e.1)),
            current: match self.current {
                Some(s) => Some(s@),
                None => None,
            },
        }
    }
}

/// The workspaces whose root layout is enforced: workspace `i + 1` for each
/// entry `i` (among the first `n`) whose tree has a container root.
pub open spec fn enforced_layouts(roots: Seq<Option<Layout>>, n: nat) -> Seq<(Seq<char>, Layout)>
    decreases n,
{
    if n == 0 || n > roots.len() {
        Seq::empty()
    } else {
        enforced_layouts(roots, (n - 1) as nat) + match roots[n - 1] {
            Some(l) => seq![(decimal(n), l)],
            None => Seq::empty(),
        }
    }
}

/// The layout enforced on workspace `ws`, if any.
pub open spec fn layout_of(layouts: Seq<(Seq<char>, Layout)>, ws: Seq<char>) -> Option<Layout> {
    if exists|i: int| 0 <= i < layouts.len() && (#[trigger] layouts[i]).0 == ws {
        let i = choose|i: int|
            0 <= i < layouts.len() && (#[trigger] layouts[i]).0 == ws && forall|j: int|
                0 <= j < i ==> (#[trigger] layouts[j]).0 != ws;
        Some(layouts[i].1)
    } else {
        None
    }
}

/// The command setting the layout enforced on workspace `ws`, if any.
pub open spec fn layout_cmd_for(layouts: Seq<(Seq<char>, Layout)>, ws: Seq<char>) -> Option<Seq<char>> {
    match layout_of(layouts, ws) {
        Some(l) => Some("layout "@ + l.name()),
        None => None,
    }
}

/// What the daemon does on an event: a workspace gaining focus becomes the
/// current one and gets its layout; a new window gets the current
/// workspace's layout; anything else is ignored.
pub open spec fn daemon_step(s: DaemonView, ev: SwayEventView) -> (DaemonView, Option<Seq<char>>) {
    match ev {
        SwayEventView::Workspace { change, name } => if change == "focus"@ {
            (DaemonView { layouts: s.layouts, current: Some(name) }, layout_cmd_for(s.layouts, name))
        } else {
            (s, None)
        },
        SwayEventView::Window(w) => if w.change == "new"@ {
            (
                s,
                match s.current {
                    Some(ws) => layout_cmd_for(s.layouts, ws),
                    None => None,
                },
            )
        } else {
            (s, None)
        },
        SwayEventView::Other => (s, None),
    }
}

impl DaemonState {
    /// The daemon's state for the startup entries whose trees have the given
    /// roots (`None` for an entry that could not be loaded or is a bare app),
    /// with no workspace known to be focused yet. `None` when no workspace
    /// has a layout to enforce.
    pub fn new(roots: &Vec<Option<Layout>>) -> (r: Option<DaemonState>)
        requires
            roots@.len() < usize::MAX,
        ensures
            match r {
                Some(d) => d@.layouts == enforced_layouts(roots@, roots@.len()) && d@.layouts.len()
                    > 0 && d@.current is None,
                None => enforced_layouts(roots@, roots@.len()).len() == 0,
            },
    {
        let mut layouts: Vec<(String, Layout)> = Vec::new();
        let mut i: usize = 0;
        assert(layouts@.map_values(|e: (String, Layout)| (e.0@, e.1)) =~= Seq::<(Seq<char>, Layout)>::empty());
        while i < roots.len()
            invariant
                0 <= i <= roots.len(),
                roots@.len() < usize::MAX,
                layouts@.map_values(|e: (String, Layout)| (e.0@, e.1)) == enforced_layouts(roots@, i as nat),
            decreases roots.len() - i,
        {
            let ghost before = layouts@.map_values(|e: (String, Layout)| (e.0@, e.1));
            match roots[i] {
                Some(l) => {
                    let ws = startup_workspace(i);
                    let ghost wv = ws@;
                    layouts.push((ws, l));
                    assert(layouts@.map_values(|e: (String, Layout)| (e.0@, e.1)) =~= before + seq![(wv, l)]);
                },
                None => {
                    assert(before + Seq::<(Seq<char>, Layout)>::empty() =~= before);
                },
            }
            i += 1;
        }
        if layouts.len() == 0 {
            return None;
        }
        Some(DaemonState { layouts, current: None })
    }

    /// Records the workspace focused when the daemon starts (`None` when
    /// Sway reports none).
    pub fn set_current(&mut self, current: Option<String>)
        ensures
            final(self)@.layouts == old(self)@.layouts,
            final(self)@.current == match current {
                Some(s) => Some(s@),
                None => None::<Seq<char>>,
            },
    {
        self.current = current;
    }

    fn layout_command_for(&self, ws: &str) -> (r: Option<String>)
        ensures
            match r {
                Some(c) => layout_cmd_for(self@.layouts, ws@) == Some(c@),
                None => layout_cmd_for(self@.layouts, ws@) is None,
            },
    {
        let ghost lv = self@.layouts;
        let mut i: usize = 0;
        while i < self.layouts.len()
            invariant
                0 <= i <= self.layouts.len(),
                lv == self@.layouts,
                lv.len() == self.layouts.len(),
                forall|j: int| 0 <= j < i ==> (#[trigger] lv[j]).0 != ws@,
            decreases self.layouts.len() - i,
        {
            assert(lv[i as int] == (self.layouts@[i as int].0@, self.layouts@[i as int].1));
            if str_eq(self.layouts[i].0.as_str(), ws) {
                proof {
                    let k = choose|k: int|
                        0 <= k < lv.len() && (#[trigger] lv[k]).0 == ws@ && forall|j: int|
                            0 <= j < k ==> (#[trigger] lv[j]).0 != ws@;
                    if k < i {
                        assert(lv[k].0 != ws@);
                    }
                    if k > i {
                        assert(lv[i as int].0 != ws@);
                    }
                }
                return Some(layout_command(self.layouts[i].1.as_str()));
            }
            i += 1;
        }
        None
    }

    /// Handles one event; returns the command to send, if any.
    pub fn on_event(&mut self, ev: &SwayEvent) -> (cmd: Option<String>)
        ensures
            (final(self)@, match cmd {
                Some(c) => Some(c@),
                None => None::<Seq<char>>,
            }) == daemon_step(old(self)@, ev@),
            match ev@ {
                SwayEventView::Window(w) => w.change != "new"@ ==> cmd is None && final(self)@ == old(self)@,
                SwayEventView::Workspace { change, name } => if change == "focus"@ {
                    final(self)@.current == Some(name) && final(self)@.layouts == old(self)@.layouts
                } else {
                    cmd is None && final(self)@ == old(self)@
                },
                SwayEventView::Other => cmd is None && final(self)@ == old(self)@,
            },
    {
        match ev {
            SwayEvent::Workspace { change, name } => {
                if str_eq(change.as_str(), "focus") {
                    let cmd = self.layout_command_for(name.as_str());
                    self.current = Some(name.clone());
                    cmd
                } else {
                    None
                }
            },
            SwayEvent::Window(w) => {
                if str_eq(w.change.as_str(), "new") {
                    match &self.current {
                        Some(ws) => self.layout_command_for(ws.as_str()),
                        None => None,
                    }
                } else {
                    None
                }
            },
            SwayEvent::Other => None,
        }
    }

    /// The workspaces with an enforced layout, sorted by name.
    pub fn enforced_workspaces(&self) -> (r: Vec<String>)
        ensures
            lex_sorted(string_views(r@)),
            string_views(r@).to_multiset() == self@.layouts.map_values(|e: (Seq<char>, Layout)| e.0).to_multiset(),
    {
        let ghost keys = self@.layouts.map_values(|e: (Seq<char>, Layout)| e.0);
        let mut sorted: Vec<String> = Vec::new();
        proof {
            assert(string_views(sorted@) =~= Seq::<Seq<char>>::empty());
            assert(keys.take(0) =~= Seq::<Seq<char>>::empty());
        }
        let mut i: usize = 0;
        while i < self.layouts.len()
            invariant
                0 <= i <= self.layouts.len(),
                keys == self@.layouts.map_values(|e: (Seq<char>, Layout)| e.0),
                keys.len() == self.layouts.len(),
                lex_sorted(string_views(sorted@)),
                string_views(sorted@).to_multiset() == keys.take(i as int).to_multiset(),
            decreases self.layouts.len() - i,
        {
            let k = self.layouts[i].0.clone();
            assert(keys[i as int] == k@);
            insert_sorted(&mut sorted, k);
            proof {
                assert(keys.take(i + 1) =~= keys.take(i as int).push(keys[i as int]));
                vstd::seq_lib::to_multiset_build(keys.take(i as int), keys[i as int]);
            }
            i += 1;
        }
        assert(keys.take(self.layouts.len() as int) =~= keys);
        sorted
    }
}

/// The daemon acts on two kinds of event only: a workspace gaining focus and
/// a new window. Any other event (a window that changed otherwise, a
/// workspace event other than focus, anything else) sends nothing and leaves
/// the daemon as it was; focusing makes that workspace the current one.
pub proof fn lemma_daemon_ignores_other_events(s: DaemonView, ev: SwayEventView)
    ensures
        ev matches SwayEventView::Window(w) && w.change != "new"@ ==> daemon_step(s, ev) == (
            s,
            None::<Seq<char>>,
        ),
        ev matches SwayEventView::Workspace { change, .. } && change != "focus"@ ==> daemon_step(s, ev)
            == (s, None::<Seq<char>>),
        ev is Other ==> daemon_step(s, ev) == (s, None::<Seq<char>>),
        match ev {
            SwayEventView::Workspace { change, name } => change == "focus"@ ==> daemon_step(s, ev).0
                == (DaemonView { layouts: s.layouts, current: Some(name) }),
            _ => true,
        },
{
}

/// Focusing a workspace and then opening a window there gives the window the
/// workspace's enforced layout: the same command focusing gave, with the
/// state unchanged by the window.
pub proof fn lemma_focus_then_new_window(s: DaemonView, name: Seq<char>, change: Seq<char>, w: WindowEventView)
    requires
        change == "focus"@,
        w.change == "new"@,
    ensures
        ({
            let (s1, c1) = daemon_step(s, SwayEventView::Workspace { change, name });
            let (s2, c2) = daemon_step(s1, SwayEventView::Window(w));
            s2 == s1 && c2 == c1 && c1 == layout_cmd_for(s.layouts, name)
        }),
{
}

} // verus!
