//! Workspace definitions: the layout tree, how it is read from a JSON
//! definition, and the apps it launches.
use vstd::prelude::*;
use crate::json::{Json, JsonView, clone_json, json_of, parse_json};
use crate::text::{str_eq, decimal, chars_of, string_of, push_decimal, digits_value};

verus! {

broadcast use vstd::string::group_string_axioms;

/// How a container arranges its children.
#[derive(Debug, Clone, Copy, PartialEq, Eq)]
pub enum Layout {
    SplitH,
    SplitV,
    Tabbed,
    Stacking,
}

impl Layout {
    /// The name Sway (and a definition file) uses for this layout.
    pub open spec fn name(self) -> Seq<char> {
        match self {
            Layout::SplitH => "splith"@,
            Layout::SplitV => "splitv"@,
            Layout::Tabbed => "tabbed"@,
            Layout::Stacking => "stacking"@,
        }
    }

    pub fn as_str(self) -> (s: &'static str)
        ensures
            s@ == self.name(),
    {
        match self {
            Layout::SplitH => "splith",
            Layout::SplitV => "splitv",
            Layout::Tabbed => "tabbed",
            Layout::Stacking => "stacking",
        }
    }

    /// The layout a key names, if any.
    pub fn from_str(s: &str) -> (r: Option<Layout>)
        ensures
            r == layout_named(s@),
    {
        if str_eq(s, "splith") {
            Some(Layout::SplitH)
        } else if str_eq(s, "splitv") {
            Some(Layout::SplitV)
        } else if str_eq(s, "tabbed") {
            Some(Layout::Tabbed)
        } else if str_eq(s, "stacking") {
            Some(Layout::Stacking)
        } else {
            None
        }
    }
}

/// The layout whose name is `k`.
pub open spec fn layout_named(k: Seq<char>) -> Option<Layout> {
    if k == "splith"@ {
        Some(Layout::SplitH)
    } else if k == "splitv"@ {
        Some(Layout::SplitV)
    } else if k == "tabbed"@ {
        Some(Layout::Tabbed)
    } else if k == "stacking"@ {
        Some(Layout::Stacking)
    } else {
        None
    }
}

/// Reading a layout's name back gives the layout.
pub proof fn lemma_layout_name_roundtrip(l: Layout)
    ensures
        layout_named(l.name()) == Some(l),
{
    reveal_strlit("splith");
    reveal_strlit("splitv");
    reveal_strlit("tabbed");
    reveal_strlit("stacking");
    assert("splith"@[5] != "splitv"@[5]);
    assert("splith"@[0] != "tabbed"@[0]);
    assert("splith"@.len() != "stacking"@.len());
    assert("splitv"@[0] != "tabbed"@[0]);
    assert("splitv"@.len() != "stacking"@.len());
    assert("tabbed"@.len() != "stacking"@.len());
}

/// A node of a workspace's layout tree. `path` names the node's position:
/// `""` for the root, `"i"` for its i-th child, `"p_i"` for the i-th child
/// of the node at `p`.
#[derive(Debug)]
pub enum LayoutNode {
    App { path: String, cmd: String },
    Container { path: String, layout: Layout, children: Vec<LayoutNode> },
}

/// The value of a [`LayoutNode`].
pub enum NodeView {
    App { path: Seq<char>, cmd: Seq<char> },
    Container { path: Seq<char>, layout: Layout, children: Seq<NodeView> },
}

pub open spec fn node_view(n: LayoutNode) -> NodeView
    decreases n,
{
    match n {
        LayoutNode::App { path, cmd } => NodeView::App { path: path@, cmd: cmd@ },
        LayoutNode::Container { path, layout, children } => NodeView::Container {
            path: path@,
            layout: layout,
            children: Seq::new(
                children.len() as nat,
                |i: int|
                    if 0 <= i < children.len() {
                        node_view(children[i])
                    } else {
                        NodeView::App { path: Seq::empty(), cmd: Seq::empty() }
                    },
            ),
        },
    }
}

impl View for LayoutNode {
    type V = NodeView;

    open spec fn view(&self) -> NodeView {
        node_view(*self)
    }
}

impl NodeView {
    pub open spec fn path(self) -> Seq<char> {
        match self {
            NodeView::App { path, .. } => path,
            NodeView::Container { path, .. } => path,
        }
    }
}

/// An app to launch: its command, and the workspace and tree position its
/// window belongs to.
pub struct AppInfo {
    pub cmd: String,
    pub workspace: String,
    pub path: String,
}

pub struct AppView {
    pub cmd: Seq<char>,
    pub workspace: Seq<char>,
    pub path: Seq<char>,
}

impl View for AppInfo {
    type V = AppView;

    open spec fn view(&self) -> AppView {
        AppView { cmd: self.cmd@, workspace: self.workspace@, path: self.path@ }
    }
}

pub open spec fn app_views(apps: Seq<AppInfo>) -> Seq<AppView> {
    apps.map_values(|a: AppInfo| a@)
}

/// The apps of a tree, leaves left to right, skipping leaves with an empty
/// command, each placed on workspace `ws`.
pub open spec fn apps_in(n: NodeView, ws: Seq<char>) -> Seq<AppView>
    decreases n, 0nat,
{
    match n {
        NodeView::App { path, cmd } => if cmd.len() > 0 {
            seq![AppView { cmd, workspace: ws, path }]
        } else {
            Seq::empty()
        },
        NodeView::Container { children, .. } => apps_in_children(children, ws, children.len()),
    }
}

/// The apps of the first `k` children, in order.
pub open spec fn apps_in_children(children: Seq<NodeView>, ws: Seq<char>, k: nat) -> Seq<AppView>
    decreases children, k,
{
    if k == 0 || k > children.len() {
        Seq::empty()
    } else {
        apps_in_children(children, ws, (k - 1) as nat) + apps_in(children[k - 1], ws)
    }
}

proof fn lemma_apps_in_children_flatten(children: Seq<NodeView>, ws: Seq<char>, k: nat)
    requires
        k <= children.len(),
    ensures
        apps_in_children(children, ws, k) == children.take(k as int).map_values(
            |c: NodeView| apps_in(c, ws),
        ).flatten_alt(),
    decreases k,
{
    let m = children.take(k as int).map_values(|c: NodeView| apps_in(c, ws));
    if k > 0 {
        lemma_apps_in_children_flatten(children, ws, (k - 1) as nat);
        assert(m.drop_last() =~= children.take(k - 1).map_values(|c: NodeView| apps_in(c, ws)));
        assert(m.last() == apps_in(children[k - 1], ws));
    } else {
        assert(m =~= Seq::<Seq<AppView>>::empty());
    }
}

/// The apps of a container are the apps of its children, child after
/// child: collecting a container's apps is collecting each child's apps in
/// turn.
pub proof fn lemma_apps_of_container(n: NodeView, ws: Seq<char>)
    requires
        n is Container,
    ensures
        apps_in(n, ws) == n->Container_children.map_values(|c: NodeView| apps_in(c, ws)).flatten(),
{
    let children = n->Container_children;
    lemma_apps_in_children_flatten(children, ws, children.len());
    assert(children.take(children.len() as int) =~= children);
    children.map_values(|c: NodeView| apps_in(c, ws)).lemma_flatten_and_flatten_alt_are_equivalent();
}

/// Appends to `apps` every app of `node`'s tree, bound to `workspace`.
#[verifier::loop_isolation(false)]
pub fn collect_apps(node: &LayoutNode, workspace: &str, apps: &mut Vec<AppInfo>)
    ensures
        app_views(final(apps)@) == app_views(old(apps)@) + apps_in(node@, workspace@),
    decreases node,
{
    match node {
        LayoutNode::App { path, cmd } => {
            if !cmd.as_str().is_empty() {
                let info = AppInfo {
                    cmd: cmd.clone(),
                    workspace: String::from_str(workspace),
                    path: path.clone(),
                };
                apps.push(info);
                assert(app_views(apps@) =~= app_views(old(apps)@) + apps_in(node@, workspace@));
            } else {
                assert(app_views(apps@) =~= app_views(old(apps)@) + apps_in(node@, workspace@));
            }
        },
        LayoutNode::Container { children, .. } => {
            let ghost cv = node@->Container_children;
            let mut i: usize = 0;
            while i < children.len()
                invariant
                    0 <= i <= children.len(),
                    cv.len() == children.len(),
                    forall|j: int| 0 <= j < children.len() ==> #[trigger] cv[j] == children@[j]@,
                    app_views(apps@) == app_views(old(apps)@) + apps_in_children(
                        cv,
                        workspace@,
                        i as nat,
                    ),
                decreases children.len() - i,
            {
                collect_apps(&children[i], workspace, apps);
                assert(app_views(apps@) =~= app_views(old(apps)@) + apps_in_children(
                    cv,
                    workspace@,
                    (i + 1) as nat,
                ));
                i += 1;
            }
        },
    }
}


/// Why a workspace definition is not a layout tree. `path` is the position
/// of the offending node.
pub enum ConfigError {
    /// An object node names more than one layout.
    MultipleLayoutKeys { path: String },
    /// An object node has a key that is no layout name.
    UnknownKey { path: String, key: String },
    /// An object node's layout value is not an array (or it has no layout key).
    NotAnArray { path: String },
    /// A node is neither a string nor an object.
    UnexpectedValue { path: String, value: Json },
}

pub enum ConfigErrorView {
    MultipleLayoutKeys { path: Seq<char> },
    UnknownKey { path: Seq<char>, key: Seq<char> },
    NotAnArray { path: Seq<char> },
    UnexpectedValue { path: Seq<char>, value: JsonView },
}

impl View for ConfigError {
    type V = ConfigErrorView;

    open spec fn view(&self) -> ConfigErrorView {
        match self {
            ConfigError::MultipleLayoutKeys { path } => ConfigErrorView::MultipleLayoutKeys {
                path: path@,
            },
            ConfigError::UnknownKey { path, key } => ConfigErrorView::UnknownKey {
                path: path@,
                key: key@,
            },
            ConfigError::NotAnArray { path } => ConfigErrorView::NotAnArray { path: path@ },
            ConfigError::UnexpectedValue { path, value } => ConfigErrorView::UnexpectedValue {
                path: path@,
                value: value@,
            },
        }
    }
}

/// The value of a parse result.
pub open spec fn parse_result_view(r: Result<LayoutNode, ConfigError>) -> Result<NodeView, ConfigErrorView> {
    match r {
        Ok(n) => Ok(n@),
        Err(e) => Err(e@),
    }
}

/// The keys of an object node, read in order up to the `n`-th: `Ok(None)`
/// when none of them names a layout, `Ok(Some(j))` when exactly the `j`-th
/// does, and the error of the first key that is unknown or names a second
/// layout.
pub open spec fn scan_keys(entries: Seq<(Seq<char>, JsonView)>, path: Seq<char>, n: nat) -> Result<Option<nat>, ConfigErrorView>
    decreases n,
{
    if n == 0 {
        Ok(None)
    } else {
        match scan_keys(entries, path, (n - 1) as nat) {
            Err(e) => Err(e),
            Ok(found) => match layout_named(entries[n - 1].0) {
                None => Err(ConfigErrorView::UnknownKey { path, key: entries[n - 1].0 }),
                Some(_) => if found is Some {
                    Err(ConfigErrorView::MultipleLayoutKeys { path })
                } else {
                    Ok(Some((n - 1) as nat))
                },
            },
        }
    }
}

proof fn lemma_scan_error_persists(entries: Seq<(Seq<char>, JsonView)>, path: Seq<char>, m: nat, n: nat)
    requires
        m <= n,
        scan_keys(entries, path, m) is Err,
    ensures
        scan_keys(entries, path, n) == scan_keys(entries, path, m),
    decreases n - m,
{
    if m < n {
        lemma_scan_error_persists(entries, path, m, (n - 1) as nat);
    }
}

proof fn lemma_items_error_persists(arr: JsonView, path: Seq<char>, m: nat, n: nat)
    requires
        arr is Array,
        m <= n <= arr->Array_0.len(),
        parse_items(arr, path, m) is Err,
    ensures
        parse_items(arr, path, n) == parse_items(arr, path, m),
    decreases n - m,
{
    if m < n {
        lemma_items_error_persists(arr, path, m, (n - 1) as nat);
    }
}

/// The path of the `i`-th child of the node at `path`.
pub open spec fn child_path(path: Seq<char>, i: nat) -> Seq<char> {
    if path.len() == 0 {
        decimal(i)
    } else {
        path + seq!['_'] + decimal(i)
    }
}

/// The layout tree a definition value describes: a string is an app with
/// that command; an object has exactly one key, a layout name, whose value
/// is the array of its children; anything else is an error.
pub open spec fn parse_spec(v: JsonView, path: Seq<char>) -> Result<NodeView, ConfigErrorView>
    decreases v, 0nat,
{
    match v {
        JsonView::Str(cmd) => Ok(NodeView::App { path, cmd }),
        JsonView::Object(entries) => match scan_keys(entries, path, entries.len()) {
            Err(e) => Err(e),
            Ok(None) => Err(ConfigErrorView::NotAnArray { path }),
            Ok(Some(j)) => if j < entries.len() && entries[j as int].1 is Array {
                match parse_items(entries[j as int].1, path, entries[j as int].1->Array_0.len()) {
                    Err(e) => Err(e),
                    Ok(children) => Ok(
                        NodeView::Container {
                            path,
                            layout: layout_named(entries[j as int].0).unwrap(),
                            children,
                        },
                    ),
                }
            } else {
                Err(ConfigErrorView::NotAnArray { path })
            },
        },
        _ => Err(ConfigErrorView::UnexpectedValue { path, value: v }),
    }
}

/// The first `n` items of array `arr`, parsed as the children of the node at
/// `path`, stopping at the first error.
pub open spec fn parse_items(arr: JsonView, path: Seq<char>, n: nat) -> Result<Seq<NodeView>, ConfigErrorView>
    decreases arr, n,
{
    match arr {
        JsonView::Array(items) => if n == 0 || n > items.len() {
            Ok(Seq::empty())
        } else {
            match parse_items(arr, path, (n - 1) as nat) {
                Err(e) => Err(e),
                Ok(done) => match parse_spec(items[n - 1], child_path(path, (n - 1) as nat)) {
                    Err(e) => Err(e),
                    Ok(c) => Ok(done.push(c)),
                },
            }
        },
        _ => Ok(Seq::empty()),
    }
}

/// The path string of the `i`-th child of the node at `path`.
fn make_child_path(path: &str, i: usize) -> (r: String)
    ensures
        r@ == child_path(path@, i as nat),
        path@.len() == 0 ==> r@ == decimal(i as nat),
        path@.len() > 0 ==> r@ == path@ + "_"@ + decimal(i as nat),
{
    let mut cs = chars_of(path);
    if cs.len() > 0 {
        cs.push('_');
    }
    push_decimal(&mut cs, i as u64);
    assert(cs@ =~= child_path(path@, i as nat));
    proof {
        reveal_strlit("_");
        if path@.len() > 0 {
            assert(cs@ =~= path@ + "_"@ + decimal(i as nat));
        }
    }
    string_of(cs.as_slice())
}

/// Builds the layout tree of a workspace definition.
pub fn build_layout_tree(def: &Json) -> (r: Result<LayoutNode, ConfigError>)
    ensures
        parse_result_view(r) == parse_spec(def@, Seq::empty()),
{
    let r = parse_node(def, "", Layout::SplitH);
    proof {
        reveal_strlit("");
        assert(""@ =~= Seq::<char>::empty());
    }
    r
}

/// Parses the node at `path`. A container names its own layout, so
/// `parent_layout` never shows in the result.
#[verifier::loop_isolation(false)]
fn parse_node(node: &Json, path: &str, parent_layout: Layout) -> (r: Result<LayoutNode, ConfigError>)
    ensures
        parse_result_view(r) == parse_spec(node@, path@),
    decreases node,
{
    match node {
        Json::Str(cmd) => {
            let r = LayoutNode::App { path: String::from_str(path), cmd: cmd.clone() };
            assert(r@ == NodeView::App { path: path@, cmd: cmd@ });
            assert(node@ == JsonView::Str(cmd@));
            Ok(r)
        },
        Json::Object(map) => {
            let ghost ev = node@->Object_0;
            assert(ev.len() == map.len());
            assert(forall|j: int| 0 <= j < map.len() ==> #[trigger] ev[j] == (map@[j].0@, map@[j].1@));
            let mut layout: Option<Layout> = None;
            let mut found: usize = 0;
            let mut i: usize = 0;
            while i < map.len()
                invariant
                    0 <= i <= map.len(),
                    scan_keys(ev, path@, i as nat) == Ok::<Option<nat>, ConfigErrorView>(
                        match layout {
                            None => None,
                            Some(_) => Some(found as nat),
                        },
                    ),
                    layout is Some ==> found < i && layout == layout_named(ev[found as int].0),
                decreases map.len() - i,
            {
                match Layout::from_str(map[i].0.as_str()) {
                    Some(l) => {
                        if layout.is_some() {
                            proof {
                                lemma_scan_error_persists(ev, path@, (i + 1) as nat, ev.len());
                            }
                            return Err(ConfigError::MultipleLayoutKeys { path: String::from_str(path) });
                        }
                        layout = Some(l);
                        found = i;
                    },
                    None => {
                        proof {
                            lemma_scan_error_persists(ev, path@, (i + 1) as nat, ev.len());
                        }
                        return Err(
                            ConfigError::UnknownKey {
                                path: String::from_str(path),
                                key: map[i].0.clone(),
                            },
                        );
                    },
                }
                i += 1;
            }
            let layout = match layout {
                Some(l) => l,
                None => {
                    return Err(ConfigError::NotAnArray { path: String::from_str(path) });
                },
            };
            let raw = match &map[found].1 {
                Json::Array(items) => items,
                _ => {
                    return Err(ConfigError::NotAnArray { path: String::from_str(path) });
                },
            };
            let ghost arr = ev[found as int].1;
            assert(arr == map@[found as int].1@);
            let mut children: Vec<LayoutNode> = Vec::new();
            assert(children@.map_values(|c: LayoutNode| c@) =~= Seq::<NodeView>::empty());
            let mut k: usize = 0;
            while k < raw.len()
                invariant
                    0 <= k <= raw.len(),
                    arr->Array_0.len() == raw.len(),
                    forall|j: int| 0 <= j < raw.len() ==> #[trigger] arr->Array_0[j] == raw@[j]@,
                    children.len() == k,
                    parse_items(arr, path@, k as nat) == Ok::<Seq<NodeView>, ConfigErrorView>(
                        children@.map_values(|c: LayoutNode| c@),
                    ),
                decreases raw.len() - k,
            {
                let cp = make_child_path(path, k);
                let child = parse_node(&raw[k], cp.as_str(), layout);
                match child {
                    Ok(c) => {
                        let ghost before = children@.map_values(|c: LayoutNode| c@);
                        let ghost cv = c@;
                        children.push(c);
                        assert(children@.map_values(|c: LayoutNode| c@) =~= before.push(cv));
                    },
                    Err(e) => {
                        proof {
                            lemma_items_error_persists(arr, path@, (k + 1) as nat, raw.len() as nat);
                        }
                        return Err(e);
                    },
                }
                k += 1;
            }
            let r = LayoutNode::Container { path: String::from_str(path), layout, children };
            assert(r@->Container_children =~= children@.map_values(|c: LayoutNode| c@));
            Ok(r)
        },
        _ => Err(ConfigError::UnexpectedValue { path: String::from_str(path), value: clone_json(node) }),
    }
}


/// One entry of the startup sequence: the definition to load (the file
/// `<name>.json` of the layouts directory) and the keybinding that switches
/// to its workspace, if any.
pub struct StartupEntry {
    pub name: String,
    pub shortcut: Option<String>,
}

pub struct StartupEntryView {
    pub name: Seq<char>,
    pub shortcut: Option<Seq<char>>,
}

impl View for StartupEntry {
    type V = StartupEntryView;

    open spec fn view(&self) -> StartupEntryView {
        StartupEntryView {
            name: self.name@,
            shortcut: match self.shortcut {
                Some(s) => Some(s@),
                None => None,
            },
        }
    }
}

pub open spec fn startup_views(entries: Seq<StartupEntry>) -> Seq<StartupEntryView> {
    entries.map_values(|e: StartupEntry| e@)
}

/// Why a startup file is not a startup sequence.
#[derive(Debug, Clone, Copy, PartialEq, Eq)]
pub enum StartupError {
    /// The file is not JSON.
    NotJson,
    /// The file does not hold a list.
    NotAList,
    /// The entry at `index` is neither a name nor an object with a string
    /// `name` (and, if present, a string or null `shortcut`).
    BadEntry { index: usize },
}

/// An entry of the startup list: a definition name, or an object with a
/// `name` and an optional `shortcut`.
pub open spec fn entry_spec(v: JsonView) -> Option<StartupEntryView> {
    match v {
        JsonView::Str(s) => Some(StartupEntryView { name: s, shortcut: None }),
        JsonView::Object(_) => match v.at("name"@).as_str() {
            Some(n) => match v.field("shortcut"@) {
                None => Some(StartupEntryView { name: n, shortcut: None }),
                Some(JsonView::Null) => Some(StartupEntryView { name: n, shortcut: None }),
                Some(JsonView::Str(sc)) => Some(StartupEntryView { name: n, shortcut: Some(sc) }),
                _ => None,
            },
            None => None,
        },
        _ => None,
    }
}

/// The first `n` entries of a startup list, or the index of the first bad one.
pub open spec fn entries_spec(items: Seq<JsonView>, n: nat) -> Result<Seq<StartupEntryView>, nat>
    decreases n,
{
    if n == 0 || n > items.len() {
        Ok(Seq::empty())
    } else {
        match entries_spec(items, (n - 1) as nat) {
            Err(i) => Err(i),
            Ok(done) => match entry_spec(items[n - 1]) {
                Some(e) => Ok(done.push(e)),
                None => Err((n - 1) as nat),
            },
        }
    }
}

proof fn lemma_entries_error_persists(items: Seq<JsonView>, m: nat, n: nat)
    requires
        m <= n <= items.len(),
        entries_spec(items, m) is Err,
    ensures
        entries_spec(items, n) == entries_spec(items, m),
    decreases n - m,
{
    if m < n {
        lemma_entries_error_persists(items, m, (n - 1) as nat);
    }
}

fn parse_entry(v: &Json) -> (r: Option<StartupEntry>)
    ensures
        match r {
            Some(e) => entry_spec(v@) == Some(e@),
            None => entry_spec(v@) is None,
        },
{
    match v {
        Json::Str(s) => Some(StartupEntry { name: s.clone(), shortcut: None }),
        Json::Object(_) => {
            let name = match v.get("name") {
                Some(n) => match n.as_str() {
                    Some(s) => s,
                    None => {
                        return None;
                    },
                },
                None => {
                    return None;
                },
            };
            match v.get("shortcut") {
                None => Some(StartupEntry { name: String::from_str(name), shortcut: None }),
                Some(Json::Null) => Some(StartupEntry { name: String::from_str(name), shortcut: None }),
                Some(Json::Str(sc)) => Some(
                    StartupEntry { name: String::from_str(name), shortcut: Some(sc.clone()) },
                ),
                Some(_) => None,
            }
        },
        _ => None,
    }
}

/// Whether `r` is what reading the startup sequence from `v` gives: the
/// entries when every one is good, the index of the first bad one, or
/// `NotAList` when `v` is no list.
pub open spec fn startup_result(v: JsonView, r: Result<Vec<StartupEntry>, StartupError>) -> bool {
    match v {
        JsonView::Array(items) => match r {
            Ok(entries) => entries_spec(items, items.len()) == Ok::<Seq<StartupEntryView>, nat>(
                startup_views(entries@),
            ),
            Err(StartupError::BadEntry { index }) => entries_spec(items, items.len()) == Err::<
                Seq<StartupEntryView>,
                nat,
            >(index as nat),
            Err(_) => false,
        },
        _ => r == Err::<Vec<StartupEntry>, StartupError>(StartupError::NotAList),
    }
}

/// Reads the startup sequence from the contents of `startup.json`.
pub fn parse_startup(v: &Json) -> (r: Result<Vec<StartupEntry>, StartupError>)
    ensures
        startup_result(v@, r),
{
    match v.as_array() {
        None => Err(StartupError::NotAList),
        Some(items) => {
            let ghost iv = items@.map_values(|x: Json| x@);
            let mut entries: Vec<StartupEntry> = Vec::new();
            let mut i: usize = 0;
            assert(startup_views(entries@) =~= Seq::<StartupEntryView>::empty());
            while i < items.len()
                invariant
                    0 <= i <= items.len(),
                    v@ == JsonView::Array(iv),
                    iv == items@.map_values(|x: Json| x@),
                    entries_spec(iv, i as nat) == Ok::<Seq<StartupEntryView>, nat>(
                        startup_views(entries@),
                    ),
                decreases items.len() - i,
            {
                assert(iv[i as int] == items@[i as int]@);
                match parse_entry(&items[i]) {
                    Some(e) => {
                        let ghost before = startup_views(entries@);
                        let ghost evw = e@;
                        entries.push(e);
                        assert(startup_views(entries@) =~= before.push(evw));
                    },
                    None => {
                        proof {
                            lemma_entries_error_persists(iv, (i + 1) as nat, iv.len());
                        }
                        return Err(StartupError::BadEntry { index: i });
                    },
                }
                i += 1;
            }
            Ok(entries)
        },
    }
}


/// The items of the array under an object node's one layout key.
pub open spec fn layout_items(v: JsonView, path: Seq<char>) -> Seq<JsonView> {
    v->Object_0[scan_keys(v->Object_0, path, v->Object_0.len())->Ok_0->Some_0 as int].1->Array_0
}

proof fn lemma_parse_items_children(arr: JsonView, path: Seq<char>, n: nat)
    requires
        arr is Array,
        n <= arr->Array_0.len(),
        parse_items(arr, path, n) is Ok,
    ensures
        parse_items(arr, path, n)->Ok_0.len() == n,
        forall|i: int|
            0 <= i < n ==> parse_spec(arr->Array_0[i], child_path(path, i as nat)) == Ok::<NodeView, ConfigErrorView>(
                #[trigger] parse_items(arr, path, n)->Ok_0[i],
            ),
    decreases n,
{
    if n > 0 {
        lemma_parse_items_children(arr, path, (n - 1) as nat);
    }
}

/// A tree built from a definition names every node by its position: the
/// node parsed at `path` has that path, and a container's `i`-th child is
/// the value at index `i` of its layout array, parsed at `child_path(path,
/// i)`.
pub proof fn lemma_parse_positions(v: JsonView, path: Seq<char>)
    ensures
        parse_spec(v, path) matches Ok(t) ==> t.path() == path,
        parse_spec(v, path) matches Ok(NodeView::Container { children, .. }) ==> children.len()
            == layout_items(v, path).len() && forall|i: int|
            0 <= i < children.len() ==> parse_spec(layout_items(v, path)[i], child_path(path, i as nat))
                == Ok::<NodeView, ConfigErrorView>(#[trigger] children[i]),
{
    if let Ok(NodeView::Container { children, .. }) = parse_spec(v, path) {
        let entries = v->Object_0;
        let j = scan_keys(entries, path, entries.len())->Ok_0->Some_0;
        let arr = entries[j as int].1;
        lemma_parse_items_children(arr, path, arr->Array_0.len());
    }
}

/// A profile file: the keybinding that runs it, if any, and the workspaces
/// it builds, each a name with its layout definition.
pub struct Profile {
    pub shortcut: Option<String>,
    pub workspaces: Vec<(String, Json)>,
}

pub struct ProfileView {
    pub shortcut: Option<Seq<char>>,
    pub workspaces: Seq<(Seq<char>, JsonView)>,
}

impl View for Profile {
    type V = ProfileView;

    open spec fn view(&self) -> ProfileView {
        ProfileView {
            shortcut: match self.shortcut {
                Some(s) => Some(s@),
                None => None,
            },
            workspaces: self.workspaces@.map_values(|w: (String, Json)| (w.0@, w.1@)),
        }
    }
}

/// Why a profile file is not a profile.
#[derive(Debug, Clone, Copy, PartialEq, Eq)]
pub enum ProfileError {
    /// `workspaces` is not an object mapping workspace names to definitions.
    WorkspacesNotAnObject,
    /// `shortcut` is neither a string nor null.
    BadShortcut,
}

/// What a file of the layouts directory holds: `None` when it has no
/// `workspaces` member (it is then a single layout definition); otherwise
/// the profile, or why it is none. Other members are ignored.
pub open spec fn profile_spec(v: JsonView) -> Option<Result<ProfileView, ProfileError>> {
    match v.field("workspaces"@) {
        None => None,
        Some(JsonView::Object(ws)) => match v.field("shortcut"@) {
            None => Some(Ok(ProfileView { shortcut: None, workspaces: ws })),
            Some(JsonView::Null) => Some(Ok(ProfileView { shortcut: None, workspaces: ws })),
            Some(JsonView::Str(sc)) => Some(Ok(ProfileView { shortcut: Some(sc), workspaces: ws })),
            _ => Some(Err(ProfileError::BadShortcut)),
        },
        Some(_) => Some(Err(ProfileError::WorkspacesNotAnObject)),
    }
}

fn clone_members(entries: &Vec<(String, Json)>) -> (r: Vec<(String, Json)>)
    ensures
        r@.map_values(|w: (String, Json)| (w.0@, w.1@)) == entries@.map_values(
            |w: (String, Json)| (w.0@, w.1@),
        ),
{
    let mut r: Vec<(String, Json)> = Vec::new();
    let mut i: usize = 0;
    while i < entries.len()
        invariant
            0 <= i <= entries.len(),
            r.len() == i,
            forall|j: int|
                #![trigger r@[j]]
                0 <= j < i ==> r@[j].0@ == entries@[j].0@ && r@[j].1@ == entries@[j].1@,
        decreases entries.len() - i,
    {
        r.push((entries[i].0.clone(), clone_json(&entries[i].1)));
        i += 1;
    }
    assert(r@.map_values(|w: (String, Json)| (w.0@, w.1@)) =~= entries@.map_values(
        |w: (String, Json)| (w.0@, w.1@),
    ));
    r
}

/// Reads a profile from the contents of a file of the layouts directory;
/// `None` when the file is a single layout definition.
pub fn parse_profile(v: &Json) -> (r: Option<Result<Profile, ProfileError>>)
    ensures
        match r {
            None => profile_spec(v@) is None,
            Some(Ok(p)) => profile_spec(v@) == Some(Ok::<ProfileView, ProfileError>(p@)),
            Some(Err(e)) => profile_spec(v@) == Some(Err::<ProfileView, ProfileError>(e)),
        },
{
    let ws = match v.get("workspaces") {
        None => {
            return None;
        },
        Some(w) => w,
    };
    let members = match ws {
        Json::Object(m) => m,
        _ => {
            return Some(Err(ProfileError::WorkspacesNotAnObject));
        },
    };
    assert(ws@->Object_0 =~= members@.map_values(|w: (String, Json)| (w.0@, w.1@)));
    let shortcut = match v.get("shortcut") {
        None => None,
        Some(Json::Null) => None,
        Some(Json::Str(sc)) => Some(sc.clone()),
        Some(_) => {
            return Some(Err(ProfileError::BadShortcut));
        },
    };
    Some(Ok(Profile { shortcut, workspaces: clone_members(members) }))
}

/// Reads a file of the layouts directory (a layout definition or a
/// profile) from its bytes; `None` when they are not JSON.
pub fn load_workspace_def(data: &[u8]) -> (r: Option<Json>)
    ensures
        match r {
            Some(v) => json_of(data@) == Some(v@),
            None => json_of(data@) is None,
        },
{
    parse_json(data)
}

/// Reads the startup sequence from the bytes of `startup.json`.
pub fn load_startup(data: &[u8]) -> (r: Result<Vec<StartupEntry>, StartupError>)
    ensures
        match json_of(data@) {
            None => r == Err::<Vec<StartupEntry>, StartupError>(StartupError::NotJson),
            Some(v) => startup_result(v, r),
        },
{
    match parse_json(data) {
        None => Err(StartupError::NotJson),
        Some(v) => parse_startup(&v),
    }
}

/// Where the nodes of a parsed tree sit: a container's `i`-th child has path
/// `i` under the root and `<p>_<i>` under the container at a non-empty path
/// `p`, and the children's paths differ from each other and from their
/// container's.
pub proof fn lemma_child_paths(v: JsonView, path: Seq<char>)
    ensures
        parse_spec(v, path) matches Ok(NodeView::Container { children, .. }) ==> forall|i: int|
            #![trigger children[i]]
            0 <= i < children.len() ==> children[i].path() == if path.len() == 0 {
                decimal(i as nat)
            } else {
                path + "_"@ + decimal(i as nat)
            },
        parse_spec(v, path) matches Ok(NodeView::Container { children, .. }) ==> forall|i: int, j: int|
            0 <= i < j < children.len() ==> (#[trigger] children[i]).path() != (#[trigger] children[j]).path()
                && children[i].path() != path,
{
    reveal_strlit("_");
    if let Ok(NodeView::Container { children, .. }) = parse_spec(v, path) {
        lemma_parse_positions(v, path);
        assert forall|i: int| 0 <= i < children.len() implies (#[trigger] children[i]).path()
            == child_path(path, i as nat) by {
            lemma_parse_positions(layout_items(v, path)[i], child_path(path, i as nat));
        }
        assert forall|i: int| #![trigger children[i]] 0 <= i < children.len() implies children[i].path()
            == if path.len() == 0 {
            decimal(i as nat)
        } else {
            path + "_"@ + decimal(i as nat)
        } by {
            if path.len() > 0 {
                assert(path + seq!['_'] + decimal(i as nat) =~= path + "_"@ + decimal(i as nat));
            }
        }
        assert forall|i: int, j: int|
            0 <= i < j < children.len() implies (#[trigger] children[i]).path() != (#[trigger] children[j]).path()
                && children[i].path() != path by {
            lemma_child_path_injective(path, i as nat, j as nat);
        }
    }
}

/// Different child indices under one path give different child paths, and
/// none is the path itself.
proof fn lemma_child_path_injective(path: Seq<char>, i: nat, j: nat)
    requires
        i != j,
    ensures
        child_path(path, i) != child_path(path, j),
        child_path(path, i) != path,
{
    crate::text::lemma_decimal_digits(i);
    crate::text::lemma_decimal_digits(j);
    if child_path(path, i) == child_path(path, j) {
        if path.len() == 0 {
            assert(digits_value(decimal(i)) == digits_value(decimal(j)));
        } else {
            let n: int = (path.len() + 1) as int;
            assert(child_path(path, i).skip(n) =~= decimal(i));
            assert(child_path(path, j).skip(n) =~= decimal(j));
        }
    }
    assert(child_path(path, i).len() > path.len());
}

} // verus!



