//! Keybindings: one `bindsym` line per startup entry that names a shortcut
//! (switching to its workspace), and one per profile that names a shortcut
//! (running the profile).
use vstd::prelude::*;
use crate::config::{StartupEntry, StartupEntryView, startup_views};
use crate::text::{decimal, join, join_strings, push_str, push_decimal, string_of};
use crate::layout::string_views;

verus! {

broadcast use vstd::string::group_string_axioms;

/// `bindsym <shortcut> workspace <n>`.
pub open spec fn binding_line(shortcut: Seq<char>, n: nat) -> Seq<char> {
    "bindsym "@ + shortcut + " workspace "@ + decimal(n)
}

/// The binding lines of the first `k` entries: entry `i` (switching to
/// workspace `i + 1`) gives a line when it names a shortcut.
pub open spec fn binding_lines_spec(entries: Seq<StartupEntryView>, k: nat) -> Seq<Seq<char>>
    decreases k,
{
    if k == 0 || k > entries.len() {
        Seq::empty()
    } else {
        binding_lines_spec(entries, (k - 1) as nat) + match entries[k - 1].shortcut {
            Some(sc) => seq![binding_line(sc, k)],
            None => Seq::empty(),
        }
    }
}

/// The binding lines of the startup entries, in order.
pub fn binding_lines(entries: &[StartupEntry]) -> (lines: Vec<String>)
    ensures
        string_views(lines@) == binding_lines_spec(startup_views(entries@), entries.len() as nat),
{
    let ghost ev = startup_views(entries@);
    let mut lines: Vec<String> = Vec::new();
    let mut i: usize = 0;
    assert(string_views(lines@) =~= Seq::<Seq<char>>::empty());
    while i < entries.len()
        invariant
            0 <= i <= entries.len(),
            ev == startup_views(entries@),
            string_views(lines@) == binding_lines_spec(ev, i as nat),
        decreases entries.len() - i,
    {
        assert(ev[i as int] == entries@[i as int]@);
        let ghost before = string_views(lines@);
        match &entries[i].shortcut {
            Some(sc) => {
                let mut cs: Vec<char> = Vec::new();
                push_str(&mut cs, "bindsym ");
                push_str(&mut cs, sc.as_str());
                push_str(&mut cs, " workspace ");
                push_decimal(&mut cs, (i as u64) + 1);
                assert(cs@ =~= binding_line(sc@, (i + 1) as nat));
                lines.push(string_of(cs.as_slice()));
                assert(string_views(lines@) =~= before + seq![binding_line(sc@, (i + 1) as nat)]);
            },
            None => {
                assert(before + Seq::<Seq<char>>::empty() =~= before);
            },
        }
        i += 1;
    }
    lines
}

/// `bindsym <shortcut> exec sway-layout run <profile>`: the keybinding that
/// runs a profile.
pub open spec fn run_binding_line(shortcut: Seq<char>, profile: Seq<char>) -> Seq<char> {
    "bindsym "@ + shortcut + " exec sway-layout run "@ + profile
}

/// The binding lines of the first `k` profiles, each given by its name and
/// its shortcut: one line for each profile that has a shortcut.
pub open spec fn run_binding_lines_spec(profiles: Seq<(Seq<char>, Option<Seq<char>>)>, k: nat) -> Seq<Seq<char>>
    decreases k,
{
    if k == 0 || k > profiles.len() {
        Seq::empty()
    } else {
        run_binding_lines_spec(profiles, (k - 1) as nat) + match profiles[k - 1].1 {
            Some(sc) => seq![run_binding_line(sc, profiles[k - 1].0)],
            None => Seq::empty(),
        }
    }
}

pub open spec fn named_shortcuts(profiles: Seq<(String, Option<String>)>) -> Seq<(Seq<char>, Option<Seq<char>>)> {
    profiles.map_values(
        |p: (String, Option<String>)|
            (
                p.0@,
                match p.1 {
                    Some(s) => Some(s@),
                    None => None,
                },
            ),
    )
}

/// The binding lines of the profiles (name and shortcut), in order.
pub fn run_binding_lines(profiles: &[(String, Option<String>)]) -> (lines: Vec<String>)
    ensures
        string_views(lines@) == run_binding_lines_spec(named_shortcuts(profiles@), profiles.len() as nat),
{
    let ghost pv = named_shortcuts(profiles@);
    let mut lines: Vec<String> = Vec::new();
    let mut i: usize = 0;
    assert(string_views(lines@) =~= Seq::<Seq<char>>::empty());
    while i < profiles.len()
        invariant
            0 <= i <= profiles.len(),
            pv == named_shortcuts(profiles@),
            string_views(lines@) == run_binding_lines_spec(pv, i as nat),
        decreases profiles.len() - i,
    {
        assert(pv[i as int].0 == profiles@[i as int].0@);
        let ghost before = string_views(lines@);
        match &profiles[i].1 {
            Some(sc) => {
                assert(pv[i as int].1 == Some(sc@));
                let mut cs: Vec<char> = Vec::new();
                push_str(&mut cs, "bindsym ");
                push_str(&mut cs, sc.as_str());
                push_str(&mut cs, " exec sway-layout run ");
                push_str(&mut cs, profiles[i].0.as_str());
                assert(cs@ =~= run_binding_line(sc@, pv[i as int].0));
                lines.push(string_of(cs.as_slice()));
                assert(string_views(lines@) =~= before + seq![run_binding_line(sc@, pv[i as int].0)]);
            },
            None => {
                assert(pv[i as int].1 is None);
                assert(before + Seq::<Seq<char>>::empty() =~= before);
            },
        }
        i += 1;
    }
    lines
}

/// The contents of the bindings file: the lines, each ended by a newline
/// (a lone newline when there are none).
pub fn bindings_file(lines: &[String]) -> (s: String)
    ensures
        s@ == join(string_views(lines@), "\n"@) + "\n"@,
{
    let joined = join_strings(lines, "\n");
    let mut cs: Vec<char> = Vec::new();
    push_str(&mut cs, joined.as_str());
    push_str(&mut cs, "\n");
    string_of(cs.as_slice())
}

} // verus!
