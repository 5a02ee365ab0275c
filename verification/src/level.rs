//! Severity levels.
//!
//! Windows toasts have no native notion of severity, so each level is
//! expressed with an icon colour, a glyph, and a system sound.

use vstd::prelude::*;

use crate::text::same_text;

verus! {

/// Which mark to draw inside the icon's disc.
#[derive(Clone, Copy, PartialEq, Eq, Structural, Debug)]
pub enum Glyph {
    /// Lower-case i: a dot above a bar.
    Info,
    /// A tick.
    Check,
    /// Exclamation mark: a bar above a dot.
    Bang,
    /// A cross.
    Cross,
}

/// One severity level: its name, icon colour, glyph and toast sound.
#[derive(Clone, Copy, Debug)]
pub struct Level {
    pub name: &'static str,
    pub colour: (u8, u8, u8),
    pub glyph: Glyph,
    pub sound: &'static str,
}

/// The four levels, in the order help text lists them.
pub open spec fn level_table() -> Seq<Level> {
    seq![
        Level {
            name: "info",
            colour: (0x00, 0x78, 0xD4),
            glyph: Glyph::Info,
            sound: "ms-winsoundevent:Notification.Default",
        },
        Level {
            name: "success",
            colour: (0x10, 0x7C, 0x10),
            glyph: Glyph::Check,
            sound: "ms-winsoundevent:Notification.Default",
        },
        Level {
            name: "warning",
            colour: (0xE8, 0xA1, 0x00),
            glyph: Glyph::Bang,
            sound: "ms-winsoundevent:Notification.Reminder",
        },
        Level {
            name: "error",
            colour: (0xC4, 0x2B, 0x1C),
            glyph: Glyph::Cross,
            sound: "ms-winsoundevent:Notification.Looping.Alarm2",
        },
    ]
}

/// The level table as a vector.
pub fn levels() -> (res: Vec<Level>)
    ensures
        res@ == level_table(),
{
    let v = vec![
        Level {
            name: "info",
            colour: (0x00, 0x78, 0xD4),
            glyph: Glyph::Info,
            sound: "ms-winsoundevent:Notification.Default",
        },
        Level {
            name: "success",
            colour: (0x10, 0x7C, 0x10),
            glyph: Glyph::Check,
            sound: "ms-winsoundevent:Notification.Default",
        },
        Level {
            name: "warning",
            colour: (0xE8, 0xA1, 0x00),
            glyph: Glyph::Bang,
            sound: "ms-winsoundevent:Notification.Reminder",
        },
        Level {
            name: "error",
            colour: (0xC4, 0x2B, 0x1C),
            glyph: Glyph::Cross,
            sound: "ms-winsoundevent:Notification.Looping.Alarm2",
        },
    ];
    assert(v@ =~= level_table());
    v
}

/// The first level in the table whose name is `name`, if any.
pub open spec fn level_named(name: Seq<char>) -> Option<Level> {
    let i = first_named(level_table(), name, 0);
    if i < level_table().len() { Some(level_table()[i]) } else { None }
}

/// Index of the first entry at or after `from` whose name is `name`, or the
/// table's length when there is none.
pub open spec fn first_named(table: Seq<Level>, name: Seq<char>, from: int) -> int
    decreases table.len() - from,
{
    if from < 0 || from >= table.len() {
        table.len() as int
    } else if table[from].name@ == name {
        from
    } else {
        first_named(table, name, from + 1)
    }
}

/// The level names, in table order.
pub open spec fn level_names() -> Seq<Seq<char>> {
    level_table().map_values(|l: Level| l.name@)
}

/// Look a level up by name, or None if it isn't one of ours.
pub fn by_name(name: &str) -> (res: Option<Level>)
    ensures
        res == level_named(name@),
{
    let table = levels();
    let mut i: usize = 0;
    while i < table.len()
        invariant
            table@ == level_table(),
            i <= table.len(),
            first_named(level_table(), name@, 0) == first_named(level_table(), name@, i as int),
        decreases table.len() - i,
    {
        if same_text(table[i].name, name) {
            return Some(table[i]);
        }
        i = i + 1;
    }
    None
}

/// Every level name, for help text and error messages.
pub fn names() -> (res: Vec<&'static str>)
    ensures
        res@.map_values(|s: &'static str| s@) == level_names(),
{
    let table = levels();
    let mut out: Vec<&'static str> = Vec::new();
    let mut i: usize = 0;
    while i < table.len()
        invariant
            table@ == level_table(),
            i <= table.len(),
            out@.len() == i,
            forall|j: int| 0 <= j < i ==> out@[j] == table@[j].name,
        decreases table.len() - i,
    {
        out.push(table[i].name);
        i = i + 1;
    }
    assert(out@.map_values(|s: &'static str| s@) =~= level_names());
    out
}

/// A name is found exactly when it is one of the listed names, and looking
/// up a listed name gives the level it names.
pub proof fn lemma_by_name_finds_listed_names(name: Seq<char>)
    ensures
        level_named(name) is Some <==> level_names().contains(name),
        forall|i: int|
            0 <= i < level_table().len() ==> level_named(#[trigger] level_names()[i]) == Some(
                level_table()[i],
            ),
{
    reveal_strlit("info");
    reveal_strlit("success");
    reveal_strlit("warning");
    reveal_strlit("error");
    let t = level_table();
    assert(level_names() =~= seq!["info"@, "success"@, "warning"@, "error"@]);
    assert("info"@.len() == 4 && "success"@.len() == 7 && "warning"@.len() == 7 && "error"@.len()
        == 5);
    assert("success"@[0] != "warning"@[0]);
    assert(t[0].name@ != t[1].name@ && t[0].name@ != t[2].name@ && t[0].name@ != t[3].name@);
    assert(t[1].name@ != t[2].name@ && t[1].name@ != t[3].name@ && t[2].name@ != t[3].name@);
    reveal_with_fuel(first_named, 5);
    if level_names().contains(name) {
        let i = choose|i: int| 0 <= i < level_names().len() && level_names()[i] == name;
        assert(name == t[i].name@);
    }
}

} // verus!
