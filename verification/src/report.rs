//! The report that lists packages with their states.

use vstd::prelude::*;
use vstd::string::{StrSliceExecFns, StringExecFns};
use crate::flags::{listed_flags, listed_meta_flags, CrateStateFlags, MetaCrateStateFlags};
use crate::state::{CrateState, StateView};

verus! {

/// The width of a separator line.
pub const SEPARATOR_WIDTH: usize = 80;

/// The width of the column that holds the names.
pub const NAME_WIDTH: usize = 30;

impl CrateStateFlags {
    /// The name of the flag, as a report shows it.
    pub open spec fn spec_name(self) -> Seq<char> {
        match self {
            CrateStateFlags::Matched => "Matched"@,
            CrateStateFlags::IsWorkspaceDependency => "IsWorkspaceDependency"@,
            CrateStateFlags::HasPreviousRelease => "HasPreviousRelease"@,
            CrateStateFlags::ChangedSincePreviousRelease => "ChangedSincePreviousRelease"@,
            CrateStateFlags::MissingChangelog => "MissingChangelog"@,
            CrateStateFlags::MissingReadme => "MissingReadme"@,
            CrateStateFlags::UnreleasableViaChangelogFrontmatter
                => "UnreleasableViaChangelogFrontmatter"@,
            CrateStateFlags::EnforcedVersionReqViolated => "EnforcedVersionReqViolated"@,
            CrateStateFlags::DisallowedVersionReqViolated => "DisallowedVersionReqViolated"@,
        }
    }

    /// The name of the flag, as a report shows it.
    pub fn name(self) -> (name: &'static str)
        ensures
            name@ == self.spec_name(),
    {
        match self {
            CrateStateFlags::Matched => "Matched",
            CrateStateFlags::IsWorkspaceDependency => "IsWorkspaceDependency",
            CrateStateFlags::HasPreviousRelease => "HasPreviousRelease",
            CrateStateFlags::ChangedSincePreviousRelease => "ChangedSincePreviousRelease",
            CrateStateFlags::MissingChangelog => "MissingChangelog",
            CrateStateFlags::MissingReadme => "MissingReadme",
            CrateStateFlags::UnreleasableViaChangelogFrontmatter
                => "UnreleasableViaChangelogFrontmatter",
            CrateStateFlags::EnforcedVersionReqViolated => "EnforcedVersionReqViolated",
            CrateStateFlags::DisallowedVersionReqViolated => "DisallowedVersionReqViolated",
        }
    }
}

impl MetaCrateStateFlags {
    /// The name of the meta flag, as a report shows it.
    pub open spec fn spec_name(self) -> Seq<char> {
        match self {
            MetaCrateStateFlags::Allowed => "Allowed"@,
            MetaCrateStateFlags::Blocked => "Blocked"@,
            MetaCrateStateFlags::Changed => "Changed"@,
            MetaCrateStateFlags::Selected => "Selected"@,
        }
    }

    /// The name of the meta flag, as a report shows it.
    pub fn name(self) -> (name: &'static str)
        ensures
            name@ == self.spec_name(),
    {
        match self {
            MetaCrateStateFlags::Allowed => "Allowed",
            MetaCrateStateFlags::Blocked => "Blocked",
            MetaCrateStateFlags::Changed => "Changed",
            MetaCrateStateFlags::Selected => "Selected",
        }
    }
}

/// The text of `count` times the character.
pub open spec fn repeated(character: char, count: nat) -> Seq<char> {
    Seq::new(count, |i: int| character)
}

/// The text, with spaces behind it up to the width; a text that is as wide
/// or wider stays as it is.
pub open spec fn padded(text: Seq<char>, width: nat) -> Seq<char> {
    if text.len() >= width {
        text
    } else {
        text + repeated(' ', (width - text.len()) as nat)
    }
}

/// The first `count` names, with a comma and a space between two.
pub open spec fn names_joined(names: Seq<Seq<char>>, count: int) -> Seq<char>
    decreases count,
{
    if count <= 0 {
        Seq::empty()
    } else if count == 1 {
        names[0]
    } else {
        names_joined(names, count - 1) + ", "@ + names[count - 1]
    }
}

/// The names as a list: in square brackets, with a comma and a space
/// between two.
pub open spec fn names_list(names: Seq<Seq<char>>) -> Seq<char> {
    "["@ + names_joined(names, names.len() as int) + "]"@
}

/// The flags of the set as a list of their names, lowest bit first.
pub open spec fn flags_list(flags: Set<CrateStateFlags>) -> Seq<char> {
    names_list(listed_flags(flags, 9).map_values(|flag: CrateStateFlags| flag.spec_name()))
}

/// The meta flags of the set as a list of their names, lowest bit first.
pub open spec fn meta_flags_list(flags: Set<MetaCrateStateFlags>) -> Seq<char> {
    names_list(
        listed_meta_flags(flags, 4).map_values(|flag: MetaCrateStateFlags| flag.spec_name()),
    )
}

/// The line that says which states a report shows; empty where it shows
/// none.
pub open spec fn states_shown(show_blocking: bool, show_flags: bool, show_meta: bool) -> Seq<
    char,
> {
    let head = if show_blocking || show_flags || show_meta {
        "Showing states: "@
    } else {
        Seq::empty()
    };
    let blocking = if show_blocking {
        head + "Blocking "@
    } else {
        head
    };
    let flags = if show_flags {
        blocking + "Flags "@
    } else {
        blocking
    };
    let meta = if show_meta {
        flags + "Meta"@
    } else {
        flags
    };
    if meta.len() > 0 {
        meta + "\n"@
    } else {
        meta
    }
}

/// The report with one more package at its end: a separator line, then
/// the name in its column, then what is shown of the state: the blocking
/// flags, the flags and the meta flags, each as a list on a line of its
/// own, from the second on indented by the width of the name column.
pub open spec fn with_entry(
    report: Seq<char>,
    name: Seq<char>,
    state: StateView,
    show_blocking: bool,
    show_flags: bool,
    show_meta: bool,
) -> Seq<char> {
    let named = report + repeated('-', SEPARATOR_WIDTH as nat) + "\n"@ + padded(
        name,
        NAME_WIDTH as nat,
    );
    let blocking = if show_blocking {
        named + flags_list(state.blocked_by()) + "\n"@ + repeated(' ', NAME_WIDTH as nat)
    } else {
        named
    };
    let flags = if show_flags {
        blocking + flags_list(state.flags) + "\n"@ + repeated(' ', NAME_WIDTH as nat)
    } else {
        blocking
    };
    let meta = if show_meta {
        flags + meta_flags_list(state.meta_flags)
    } else {
        flags
    };
    meta + "\n"@
}

/// The report with the first `count` packages behind what it holds.
pub open spec fn with_entries(
    report: Seq<char>,
    states: Seq<(Seq<char>, StateView)>,
    count: int,
    show_blocking: bool,
    show_flags: bool,
    show_meta: bool,
) -> Seq<char>
    decreases count,
{
    if count <= 0 {
        report
    } else {
        with_entry(
            with_entries(report, states, count - 1, show_blocking, show_flags, show_meta),
            states[count - 1].0,
            states[count - 1].1,
            show_blocking,
            show_flags,
            show_meta,
        )
    }
}

/// The report on the packages and their states: an empty line, a
/// separator line, the title, the line that says which states are shown,
/// and then the packages, one after the other.
pub open spec fn report_text(
    states: Seq<(Seq<char>, StateView)>,
    title: Seq<char>,
    show_blocking: bool,
    show_flags: bool,
    show_meta: bool,
) -> Seq<char> {
    with_entries(
        "\n"@ + repeated('-', SEPARATOR_WIDTH as nat) + "\n"@ + title + "\n"@ + states_shown(
            show_blocking,
            show_flags,
            show_meta,
        ),
        states,
        states.len() as int,
        show_blocking,
        show_flags,
        show_meta,
    )
}

/// The text of `count` dashes.
fn dashes(count: usize) -> (text: String)
    ensures
        text@ == repeated('-', count as nat),
{
    let mut text = String::new();
    let mut i: usize = 0;
    proof {
        reveal_strlit("-");
        assert(text@ =~= repeated('-', 0));
    }
    while i < count
        invariant
            i <= count,
            text@ == repeated('-', i as nat),
            "-"@ == seq!['-'],
        decreases count - i,
    {
        text.append("-");
        assert(text@ =~= repeated('-', (i + 1) as nat));
        i += 1;
    }
    text
}

/// The text of `count` spaces.
fn spaces(count: usize) -> (text: String)
    ensures
        text@ == repeated(' ', count as nat),
{
    let mut text = String::new();
    let mut i: usize = 0;
    proof {
        reveal_strlit(" ");
        assert(text@ =~= repeated(' ', 0));
    }
    while i < count
        invariant
            i <= count,
            text@ == repeated(' ', i as nat),
            " "@ == seq![' '],
        decreases count - i,
    {
        text.append(" ");
        assert(text@ =~= repeated(' ', (i + 1) as nat));
        i += 1;
    }
    text
}

/// The text in a column of the given width.
fn pad(text: &str, width: usize) -> (out: String)
    ensures
        out@ == padded(text@, width as nat),
{
    let length = text.unicode_len();
    let mut out = String::from_str(text);
    if length < width {
        let fill = spaces(width - length);
        out.append(fill.as_str());
    }
    out
}

/// The names of the flags as a list.
fn list_flags(flags: &Vec<CrateStateFlags>) -> (text: String)
    ensures
        text@ == names_list(flags@.map_values(|flag: CrateStateFlags| flag.spec_name())),
{
    let ghost names = flags@.map_values(|flag: CrateStateFlags| flag.spec_name());
    let mut joined = String::new();
    let mut i: usize = 0;
    assert(joined@ =~= names_joined(names, 0));
    while i < flags.len()
        invariant
            i <= flags.len(),
            names == flags@.map_values(|flag: CrateStateFlags| flag.spec_name()),
            joined@ == names_joined(names, i as int),
        decreases flags.len() - i,
    {
        if i > 0 {
            joined.append(", ");
        }
        joined.append(flags[i].name());
        proof {
            assert(names[i as int] == flags@[i as int].spec_name());
            if i == 0 {
                assert(joined@ =~= names[0]);
            }
        }
        i += 1;
    }
    let mut text = String::from_str("[");
    text.append(joined.as_str());
    text.append("]");
    text
}

/// The names of the meta flags as a list.
fn list_meta_flags(flags: &Vec<MetaCrateStateFlags>) -> (text: String)
    ensures
        text@ == names_list(flags@.map_values(|flag: MetaCrateStateFlags| flag.spec_name())),
{
    let ghost names = flags@.map_values(|flag: MetaCrateStateFlags| flag.spec_name());
    let mut joined = String::new();
    let mut i: usize = 0;
    assert(joined@ =~= names_joined(names, 0));
    while i < flags.len()
        invariant
            i <= flags.len(),
            names == flags@.map_values(|flag: MetaCrateStateFlags| flag.spec_name()),
            joined@ == names_joined(names, i as int),
        decreases flags.len() - i,
    {
        if i > 0 {
            joined.append(", ");
        }
        joined.append(flags[i].name());
        proof {
            assert(names[i as int] == flags@[i as int].spec_name());
            if i == 0 {
                assert(joined@ =~= names[0]);
            }
        }
        i += 1;
    }
    let mut text = String::from_str("[");
    text.append(joined.as_str());
    text.append("]");
    text
}

/// What the entries say, with views in place of the strings and states.
pub open spec fn named_states(states: Seq<(String, CrateState)>) -> Seq<(Seq<char>, StateView)> {
    Seq::new(states.len(), |i: int| (states[i].0@, states[i].1@))
}

impl CrateState {
    /// A report on packages and their states, under a title. It shows, of
    /// each state, what is asked for: the blocking flags that are set, the
    /// flags, and the meta flags.
    pub fn format_crates_states(
        states: &Vec<(String, CrateState)>,
        title: &str,
        show_blocking: bool,
        show_flags: bool,
        show_meta: bool,
    ) -> (report: String)
        ensures
            report@ == report_text(
                named_states(states@),
                title@,
                show_blocking,
                show_flags,
                show_meta,
            ),
    {
        let mut states_shown = if show_blocking || show_flags || show_meta {
            String::from_str("Showing states: ")
        } else {
            String::new()
        };
        if show_blocking {
            states_shown.append("Blocking ");
        }
        if show_flags {
            states_shown.append("Flags ");
        }
        if show_meta {
            states_shown.append("Meta");
        }
        if states_shown.as_str().unicode_len() > 0 {
            states_shown.append("\n");
        }

        let separator = dashes(SEPARATOR_WIDTH);
        let indent = spaces(NAME_WIDTH);
        let mut msg = String::from_str("\n");
        msg.append(separator.as_str());
        msg.append("\n");
        msg.append(title);
        msg.append("\n");
        msg.append(states_shown.as_str());

        let ghost entries = named_states(states@);
        let mut i: usize = 0;
        while i < states.len()
            invariant
                i <= states.len(),
                entries == named_states(states@),
                separator@ == repeated('-', SEPARATOR_WIDTH as nat),
                indent@ == repeated(' ', NAME_WIDTH as nat),
                msg@ == with_entries(
                    "\n"@ + repeated('-', SEPARATOR_WIDTH as nat) + "\n"@ + title@ + "\n"@
                        + crate::report::states_shown(show_blocking, show_flags, show_meta),
                    entries,
                    i as int,
                    show_blocking,
                    show_flags,
                    show_meta,
                ),
            decreases states.len() - i,
        {
            let name = &states[i].0;
            let state = &states[i].1;
            assert(entries[i as int] == (name@, state@));
            msg.append(separator.as_str());
            msg.append("\n");
            let column = pad(name.as_str(), NAME_WIDTH);
            msg.append(column.as_str());
            if show_blocking {
                let blocking = list_flags(&state.blocked_by().to_vec());
                msg.append(blocking.as_str());
                msg.append("\n");
                msg.append(indent.as_str());
            }
            if show_flags {
                let flags = list_flags(&state.flags().to_vec());
                msg.append(flags.as_str());
                msg.append("\n");
                msg.append(indent.as_str());
            }
            if show_meta {
                let meta = list_meta_flags(&state.meta_flags().to_vec());
                msg.append(meta.as_str());
            }
            msg.append("\n");
            i += 1;
        }
        msg
    }
}

} // verus!
