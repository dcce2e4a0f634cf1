//! State and rules of the telemetry dashboard: tabs, sort modes, log level
//! filters and the rows of the archetype tree.
use vstd::prelude::*;

use crate::names::chars_of;

verus! {

/// Whether two strings hold the same text.
pub fn same_text(a: &str, b: &str) -> (r: bool)
    ensures
        r == (a@ == b@),
{
    let x = chars_of(a);
    let y = chars_of(b);
    if x.len() != y.len() {
        return false;
    }
    let mut i: usize = 0;
    while i < x.len()
        invariant
            x@ == a@,
            y@ == b@,
            x@.len() == y@.len(),
            i <= x@.len(),
            forall|j: int| 0 <= j < i ==> x@[j] == y@[j],
        decreases x@.len() - i,
    {
        if x[i] != y[i] {
            proof {
                assert(a@ != b@) by {
                    if a@ == b@ {
                        assert(x@[i as int] == y@[i as int]);
                    }
                }
            }
            return false;
        }
        i = i + 1;
    }
    proof {
        assert(x@ =~= y@);
    }
    true
}

/// The dashboard's tabs, in display order.
#[derive(Clone, Copy, Debug, PartialEq, Eq, Structural)]
pub enum Tab {
    Overview,
    Systems,
    Assets,
    Logs,
}

impl Tab {
    /// The tab to the right, wrapping around.
    pub open spec fn spec_next(self) -> Tab {
        match self {
            Tab::Overview => Tab::Systems,
            Tab::Systems => Tab::Assets,
            Tab::Assets => Tab::Logs,
            Tab::Logs => Tab::Overview,
        }
    }

    /// The tab to the left, wrapping around.
    pub open spec fn spec_prev(self) -> Tab {
        match self {
            Tab::Overview => Tab::Logs,
            Tab::Systems => Tab::Overview,
            Tab::Assets => Tab::Systems,
            Tab::Logs => Tab::Assets,
        }
    }

    /// The tab to the right, wrapping around.
    #[verifier::when_used_as_spec(spec_next)]
    pub fn next(self) -> (r: Tab)
        ensures
            r == self.spec_next(),
    {
        match self {
            Tab::Overview => Tab::Systems,
            Tab::Systems => Tab::Assets,
            Tab::Assets => Tab::Logs,
            Tab::Logs => Tab::Overview,
        }
    }

    /// The tab to the left, wrapping around.
    #[verifier::when_used_as_spec(spec_prev)]
    pub fn prev(self) -> (r: Tab)
        ensures
            r == self.spec_prev(),
    {
        match self {
            Tab::Overview => Tab::Logs,
            Tab::Systems => Tab::Overview,
            Tab::Assets => Tab::Systems,
            Tab::Logs => Tab::Assets,
        }
    }

    /// The tab's title.
    pub fn label(self) -> (r: &'static str)
        ensures
            r@ == match self {
                Tab::Overview => "Overview"@,
                Tab::Systems => "Systems"@,
                Tab::Assets => "Assets"@,
                Tab::Logs => "Logs"@,
            },
    {
        match self {
            Tab::Overview => "Overview",
            Tab::Systems => "Systems",
            Tab::Assets => "Assets",
            Tab::Logs => "Logs",
        }
    }
}

/// Going right then left, or left then right, comes back to the same tab;
/// going right four times visits every tab and comes back.
pub proof fn law_tab_cycle(t: Tab)
    ensures
        t.spec_next().spec_prev() == t,
        t.spec_prev().spec_next() == t,
        t.spec_next().spec_next().spec_next().spec_next() == t,
        t.spec_next() != t,
        t.spec_next().spec_next() != t,
        t.spec_next().spec_next().spec_next() != t,
{
}

/// How archetypes are ordered in the tree.
#[derive(Clone, Copy, Debug, PartialEq, Eq, Structural)]
pub enum SortMode {
    CountDesc,
    CountAsc,
    Alphabetical,
}

impl SortMode {
    /// The next mode, wrapping around.
    pub open spec fn spec_next(self) -> SortMode {
        match self {
            SortMode::CountDesc => SortMode::CountAsc,
            SortMode::CountAsc => SortMode::Alphabetical,
            SortMode::Alphabetical => SortMode::CountDesc,
        }
    }

    /// The next mode, wrapping around.
    #[verifier::when_used_as_spec(spec_next)]
    pub fn next(self) -> (r: SortMode)
        ensures
            r == self.spec_next(),
    {
        match self {
            SortMode::CountDesc => SortMode::CountAsc,
            SortMode::CountAsc => SortMode::Alphabetical,
            SortMode::Alphabetical => SortMode::CountDesc,
        }
    }

    /// The mode's caption.
    pub fn label(self) -> (r: &'static str)
        ensures
            r@ == match self {
                SortMode::CountDesc => "count \u{2193}"@,
                SortMode::CountAsc => "count \u{2191}"@,
                SortMode::Alphabetical => "A-Z"@,
            },
    {
        match self {
            SortMode::CountDesc => "count \u{2193}",
            SortMode::CountAsc => "count \u{2191}",
            SortMode::Alphabetical => "A-Z",
        }
    }
}

/// Stepping through the sort modes three times comes back to the start,
/// visiting each mode once.
pub proof fn law_sort_mode_cycle(m: SortMode)
    ensures
        m.spec_next().spec_next().spec_next() == m,
        m.spec_next() != m,
        m.spec_next().spec_next() != m,
{
}

/// Whether keys go to the search box or act as commands.
#[derive(Clone, Copy, Debug, PartialEq, Eq, Structural)]
pub enum InputMode {
    Normal,
    Search,
}

/// The lowest log level shown.
#[derive(Clone, Copy, Debug, PartialEq, Eq, Structural)]
pub enum LogFilter {
    All,
    Debug,
    Info,
    Warn,
    Error,
}

impl LogFilter {
    /// The next filter, wrapping around.
    pub open spec fn spec_next(self) -> LogFilter {
        match self {
            LogFilter::All => LogFilter::Debug,
            LogFilter::Debug => LogFilter::Info,
            LogFilter::Info => LogFilter::Warn,
            LogFilter::Warn => LogFilter::Error,
            LogFilter::Error => LogFilter::All,
        }
    }

    /// Whether an entry of the given level is shown.
    pub open spec fn spec_passes(self, level: Seq<char>) -> bool {
        match self {
            LogFilter::All => true,
            LogFilter::Debug => level != "TRACE"@,
            LogFilter::Info => level == "INFO"@ || level == "WARN"@ || level == "ERROR"@,
            LogFilter::Warn => level == "WARN"@ || level == "ERROR"@,
            LogFilter::Error => level == "ERROR"@,
        }
    }

    /// The next filter, wrapping around.
    #[verifier::when_used_as_spec(spec_next)]
    pub fn next(self) -> (r: LogFilter)
        ensures
            r == self.spec_next(),
    {
        match self {
            LogFilter::All => LogFilter::Debug,
            LogFilter::Debug => LogFilter::Info,
            LogFilter::Info => LogFilter::Warn,
            LogFilter::Warn => LogFilter::Error,
            LogFilter::Error => LogFilter::All,
        }
    }

    /// The filter's caption.
    pub fn label(self) -> (r: &'static str)
        ensures
            r@ == match self {
                LogFilter::All => "ALL"@,
                LogFilter::Debug => "DEBUG+"@,
                LogFilter::Info => "INFO+"@,
                LogFilter::Warn => "WARN+"@,
                LogFilter::Error => "ERROR"@,
            },
    {
        match self {
            LogFilter::All => "ALL",
            LogFilter::Debug => "DEBUG+",
            LogFilter::Info => "INFO+",
            LogFilter::Warn => "WARN+",
            LogFilter::Error => "ERROR",
        }
    }

    /// Whether an entry of the given level is shown.
    pub fn passes(self, level: &str) -> (r: bool)
        ensures
            r == self.spec_passes(level@),
    {
        match self {
            LogFilter::All => true,
            LogFilter::Debug => !same_text(level, "TRACE"),
            LogFilter::Info => same_text(level, "INFO") || same_text(level, "WARN") || same_text(
                level,
                "ERROR",
            ),
            LogFilter::Warn => same_text(level, "WARN") || same_text(level, "ERROR"),
            LogFilter::Error => same_text(level, "ERROR"),
        }
    }
}

/// Each step of the filter cycle shows no more levels than the one before,
/// until it wraps around to showing everything.
pub proof fn law_log_filter_narrows(f: LogFilter, level: Seq<char>)
    requires
        f != LogFilter::Error,
    ensures
        f.spec_next().spec_passes(level) ==> f.spec_passes(level),
        LogFilter::Error.spec_next().spec_passes(level),
{
    reveal_strlit("TRACE");
    reveal_strlit("INFO");
    reveal_strlit("WARN");
    reveal_strlit("ERROR");
    assert("INFO"@.len() != "TRACE"@.len());
    assert("WARN"@.len() != "TRACE"@.len());
    assert("ERROR"@[0] != "TRACE"@[0]);
}

/// One line of the archetype tree.
#[derive(Clone, Copy, Debug, PartialEq, Eq, Structural)]
pub enum TreeRow {
    Archetype { arch_idx: usize },
    Entity { arch_idx: usize, entity_row: usize },
    Component { arch_idx: usize, entity_row: usize, comp_idx: usize },
    /// A single field line inside an expanded component (display only).
    Field { arch_idx: usize, entity_row: usize, comp_idx: usize, field_idx: usize },
}

impl TreeRow {
    /// Whether the cursor can rest on the row: every row but a field line.
    pub fn is_selectable(&self) -> (r: bool)
        ensures
            r == !(*self is Field),
    {
        match self {
            TreeRow::Field { .. } => false,
            _ => true,
        }
    }
}

} // verus!
