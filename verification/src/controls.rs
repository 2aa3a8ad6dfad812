use crate::rules::FilterOperator;
use crate::text::push_str;
use crate::writer::texts;
use vstd::prelude::*;
use vstd::string::StrSliceExecFns;

verus! {

/// The separators offered in the formatting panel, in menu order.
pub open spec fn delimiter_title_list() -> Seq<Seq<char>> {
    seq!["Comma"@, "Semicolon"@, "Tab"@, "Pipe"@, "Colon"@, "Custom"@]
}

/// Titles of the separator menu.
pub fn delimiter_titles() -> (r: Vec<String>)
    ensures
        texts(r@) == delimiter_title_list(),
{
    let mut v: Vec<String> = Vec::new();
    v.push("Comma".to_owned());
    v.push("Semicolon".to_owned());
    v.push("Tab".to_owned());
    v.push("Pipe".to_owned());
    v.push("Colon".to_owned());
    v.push("Custom".to_owned());
    assert(texts(v@) =~= delimiter_title_list());
    v
}

/// Menu position of a separator: comma, semicolon, tab, pipe, colon, or the
/// custom entry for any other byte.
pub open spec fn spec_delimiter_index(delimiter: u8) -> usize {
    if delimiter == 44 {
        0
    } else if delimiter == 59 {
        1
    } else if delimiter == 9 {
        2
    } else if delimiter == 124 {
        3
    } else if delimiter == 58 {
        4
    } else {
        5
    }
}

/// Menu position of a separator.
pub fn delimiter_index(delimiter: u8) -> (i: usize)
    ensures
        i == spec_delimiter_index(delimiter),
{
    if delimiter == 44u8 {
        0
    } else if delimiter == 59u8 {
        1
    } else if delimiter == 9u8 {
        2
    } else if delimiter == 124u8 {
        3
    } else if delimiter == 58u8 {
        4
    } else {
        5
    }
}

/// The text of the custom separator field: the separator itself when it is
/// not one of the menu entries, otherwise empty.
pub fn custom_delimiter_text(delimiter: u8) -> (s: String)
    ensures
        s@ == if spec_delimiter_index(delimiter) == 5 {
            seq![delimiter as char]
        } else {
            Seq::<char>::empty()
        },
{
    let mut s = String::new();
    if delimiter_index(delimiter) == 5 {
        crate::text::push_char(&mut s, delimiter as char);
    }
    s
}

/// The one character of a text, or an error naming the field.
pub fn single_character(value: &str, label: &str) -> (r: Result<char, String>)
    ensures
        value@.len() == 1 ==> r == Ok::<char, String>(value@[0]),
        value@.len() != 1 ==> (r matches Err(m) && m@ == label@ + " must be one character."@),
{
    if value.unicode_len() != 1 {
        let mut m = label.to_owned();
        push_str(&mut m, " must be one character.");
        return Err(m);
    }
    Ok(value.get_char(0))
}

/// The separator that a custom separator text stands for: `\t` is a tab,
/// otherwise the text must be one ASCII character that is not a quote or a
/// line break.
pub open spec fn spec_custom_delimiter(value: Seq<char>) -> Result<u8, Seq<char>> {
    let d = if value == seq!['\\', 't'] {
        Some('\t')
    } else if value.len() == 1 {
        Some(value[0])
    } else {
        None
    };
    match d {
        None => Err("Custom separator"@ + " must be one character."@),
        Some(c) => if c == '\n' || c == '\r' || c == '"' {
            Err("Custom separator cannot be a quote or line break."@)
        } else if (c as u32) >= 128 {
            Err("Custom separator must be one ASCII character."@)
        } else {
            Ok(c as u8)
        },
    }
}

/// Reads the custom separator field.
pub fn custom_delimiter(value: &str) -> (r: Result<u8, String>)
    ensures
        match (r, spec_custom_delimiter(value@)) {
            (Ok(d), Ok(e)) => d == e,
            (Err(m), Err(e)) => m@ == e,
            _ => false,
        },
{
    let n = value.unicode_len();
    let delimiter = if n == 2 && value.get_char(0) == '\\' && value.get_char(1) == 't' {
        assert(value@ =~= seq!['\\', 't']);
        '\t'
    } else {
        assert(value@ != seq!['\\', 't'] || n != 2);
        match single_character(value, "Custom separator") {
            Ok(c) => c,
            Err(m) => {
                return Err(m);
            },
        }
    };
    if delimiter == '\n' || delimiter == '\r' || delimiter == '"' {
        return Err("Custom separator cannot be a quote or line break.".to_owned());
    }
    if (delimiter as u32) >= 128 {
        return Err("Custom separator must be one ASCII character.".to_owned());
    }
    Ok(delimiter as u8)
}

/// The separator chosen in the menu: a fixed one, or the custom field for
/// the custom entry and any other position.
pub fn delimiter_at(index: isize, custom: &str) -> (r: Result<u8, String>)
    ensures
        index == 0 ==> r == Ok::<u8, String>(44),
        index == 1 ==> r == Ok::<u8, String>(59),
        index == 2 ==> r == Ok::<u8, String>(9),
        index == 3 ==> r == Ok::<u8, String>(124),
        index == 4 ==> r == Ok::<u8, String>(58),
        !(0 <= index <= 4) ==> match (r, spec_custom_delimiter(custom@)) {
            (Ok(d), Ok(e)) => d == e,
            (Err(m), Err(e)) => m@ == e,
            _ => false,
        },
{
    if index == 0 {
        Ok(44u8)
    } else if index == 1 {
        Ok(59u8)
    } else if index == 2 {
        Ok(9u8)
    } else if index == 3 {
        Ok(124u8)
    } else if index == 4 {
        Ok(58u8)
    } else {
        custom_delimiter(custom)
    }
}

/// The filter operators in menu order.
pub open spec fn operator_list() -> Seq<FilterOperator> {
    seq![
        FilterOperator::Contains,
        FilterOperator::DoesNotContain,
        FilterOperator::Equals,
        FilterOperator::DoesNotEqual,
        FilterOperator::StartsWith,
        FilterOperator::EndsWith,
        FilterOperator::GreaterThan,
        FilterOperator::GreaterThanOrEqual,
        FilterOperator::LessThan,
        FilterOperator::LessThanOrEqual,
        FilterOperator::IsEmpty,
        FilterOperator::IsNotEmpty,
    ]
}

/// The titles of the filter operator menu.
pub open spec fn operator_title_list() -> Seq<Seq<char>> {
    seq![
        "Contains"@,
        "Does not contain"@,
        "Equals"@,
        "Does not equal"@,
        "Starts with"@,
        "Ends with"@,
        "Greater than"@,
        "Greater than or equal"@,
        "Less than"@,
        "Less than or equal"@,
        "Is empty"@,
        "Is not empty"@,
    ]
}

/// Titles of the filter operator menu.
pub fn filter_operator_titles() -> (r: Vec<String>)
    ensures
        texts(r@) == operator_title_list(),
{
    let mut v: Vec<String> = Vec::new();
    v.push("Contains".to_owned());
    v.push("Does not contain".to_owned());
    v.push("Equals".to_owned());
    v.push("Does not equal".to_owned());
    v.push("Starts with".to_owned());
    v.push("Ends with".to_owned());
    v.push("Greater than".to_owned());
    v.push("Greater than or equal".to_owned());
    v.push("Less than".to_owned());
    v.push("Less than or equal".to_owned());
    v.push("Is empty".to_owned());
    v.push("Is not empty".to_owned());
    assert(texts(v@) =~= operator_title_list());
    v
}

/// Menu position of a filter operator.
pub fn filter_operator_index(operator: FilterOperator) -> (i: usize)
    ensures
        i < 12,
        operator_list()[i as int] == operator,
{
    match operator {
        FilterOperator::Contains => 0,
        FilterOperator::DoesNotContain => 1,
        FilterOperator::Equals => 2,
        FilterOperator::DoesNotEqual => 3,
        FilterOperator::StartsWith => 4,
        FilterOperator::EndsWith => 5,
        FilterOperator::GreaterThan => 6,
        FilterOperator::GreaterThanOrEqual => 7,
        FilterOperator::LessThan => 8,
        FilterOperator::LessThanOrEqual => 9,
        FilterOperator::IsEmpty => 10,
        FilterOperator::IsNotEmpty => 11,
    }
}

/// The filter operator at a menu position (the first one for a position
/// outside the menu).
pub fn filter_operator_at(index: isize) -> (o: FilterOperator)
    ensures
        0 <= index < 12 ==> o == operator_list()[index as int],
        !(0 <= index < 12) ==> o == FilterOperator::Contains,
{
    if index == 1 {
        FilterOperator::DoesNotContain
    } else if index == 2 {
        FilterOperator::Equals
    } else if index == 3 {
        FilterOperator::DoesNotEqual
    } else if index == 4 {
        FilterOperator::StartsWith
    } else if index == 5 {
        FilterOperator::EndsWith
    } else if index == 6 {
        FilterOperator::GreaterThan
    } else if index == 7 {
        FilterOperator::GreaterThanOrEqual
    } else if index == 8 {
        FilterOperator::LessThan
    } else if index == 9 {
        FilterOperator::LessThanOrEqual
    } else if index == 10 {
        FilterOperator::IsEmpty
    } else if index == 11 {
        FilterOperator::IsNotEmpty
    } else {
        FilterOperator::Contains
    }
}

/// Key code of the left arrow key.
pub const KEY_LEFT_ARROW: u16 = 123;

/// Key code of the right arrow key.
pub const KEY_RIGHT_ARROW: u16 = 124;

/// Key code of the down arrow key.
pub const KEY_DOWN_ARROW: u16 = 125;

/// Key code of the up arrow key.
pub const KEY_UP_ARROW: u16 = 126;

/// The (rows, columns) step of an arrow key.
pub fn navigation_delta_for_key_code(key_code: u16) -> (r: Option<(isize, isize)>)
    ensures
        key_code == KEY_UP_ARROW ==> r == Some((-1isize, 0isize)),
        key_code == KEY_DOWN_ARROW ==> r == Some((1isize, 0isize)),
        key_code == KEY_LEFT_ARROW ==> r == Some((0isize, -1isize)),
        key_code == KEY_RIGHT_ARROW ==> r == Some((0isize, 1isize)),
        !(KEY_LEFT_ARROW <= key_code <= KEY_UP_ARROW) ==> r is None,
{
    if key_code == KEY_UP_ARROW {
        Some((-1, 0))
    } else if key_code == KEY_DOWN_ARROW {
        Some((1, 0))
    } else if key_code == KEY_LEFT_ARROW {
        Some((0, -1))
    } else if key_code == KEY_RIGHT_ARROW {
        Some((0, 1))
    } else {
        None
    }
}

/// Whether a character is alphanumeric in Unicode's sense.
pub uninterp spec fn alphanumeric(c: char) -> bool;

/// Tests a character for Unicode's alphabetic or numeric property.
///
/// Calls `char::is_alphanumeric`. Claimed: the result is the named property
/// of the character, and every ASCII letter and digit has it.
#[verifier::external_body]
fn is_alphanumeric_char(c: char) -> (r: bool)
    ensures
        r == alphanumeric(c),
        ('a' <= c <= 'z' || 'A' <= c <= 'Z' || '0' <= c <= '9') ==> r,
{
    c.is_alphanumeric()
}

/// Typing this text into the table starts editing a cell: it is one
/// alphanumeric character.
pub fn is_cell_edit_start_text(text: &str) -> (r: bool)
    ensures
        r == (text@.len() == 1 && alphanumeric(text@[0])),
{
    if text.unicode_len() != 1 {
        return false;
    }
    is_alphanumeric_char(text.get_char(0))
}


/// The actions of the toolbar.
#[derive(Debug, Clone, Copy, PartialEq, Eq, Structural)]
pub enum ToolbarIcon {
    Formatting,
    SortFilter,
    Undo,
    Redo,
    Copy,
    Find,
    AddRow,
    AddColumn,
    DeleteSelection,
    MoveRowUp,
    MoveRowDown,
    MoveColumnLeft,
    MoveColumnRight,
    Save,
}

impl ToolbarIcon {
    /// The system symbol names to try for the icon, best first.
    pub open spec fn symbol_names(self) -> Seq<Seq<char>> {
        match self {
            ToolbarIcon::Formatting => seq!["tablecells"@, "table"@],
            ToolbarIcon::SortFilter => seq![
                "line.3.horizontal.decrease.circle"@,
                "line.3.horizontal.decrease"@,
            ],
            ToolbarIcon::Undo => seq!["arrow.uturn.backward"@, "gobackward"@],
            ToolbarIcon::Redo => seq!["arrow.uturn.forward"@, "goforward"@],
            ToolbarIcon::Copy => seq!["doc.on.doc"@, "doc"@],
            ToolbarIcon::Find => seq!["magnifyingglass"@],
            ToolbarIcon::AddRow => seq!["plus.rectangle.on.rectangle"@, "plus.rectangle"@, "plus"@],
            ToolbarIcon::AddColumn => seq!["plus.square.on.square"@, "plus.square"@, "plus"@],
            ToolbarIcon::DeleteSelection => seq!["xmark.square"@, "trash"@, "minus.square"@],
            ToolbarIcon::MoveRowUp => seq!["arrow.up.to.line.compact"@, "arrow.up"@],
            ToolbarIcon::MoveRowDown => seq!["arrow.down.to.line.compact"@, "arrow.down"@],
            ToolbarIcon::MoveColumnLeft => seq!["arrow.left.to.line.compact"@, "arrow.left"@],
            ToolbarIcon::MoveColumnRight => seq!["arrow.right.to.line.compact"@, "arrow.right"@],
            ToolbarIcon::Save => seq!["square.and.arrow.down"@, "tray.and.arrow.down"@],
        }
    }

    /// The system symbol names to try for the icon, best first.
    pub fn symbols(self) -> (r: &'static [&'static str])
        ensures
            r@.len() == self.symbol_names().len(),
            forall|i: int| 0 <= i < r@.len() ==> (#[trigger] r@[i])@ == self.symbol_names()[i],
    {
        match self {
            ToolbarIcon::Formatting => &["tablecells", "table"],
            ToolbarIcon::SortFilter => &[
                "line.3.horizontal.decrease.circle",
                "line.3.horizontal.decrease",
            ],
            ToolbarIcon::Undo => &["arrow.uturn.backward", "gobackward"],
            ToolbarIcon::Redo => &["arrow.uturn.forward", "goforward"],
            ToolbarIcon::Copy => &["doc.on.doc", "doc"],
            ToolbarIcon::Find => &["magnifyingglass"],
            ToolbarIcon::AddRow => &["plus.rectangle.on.rectangle", "plus.rectangle", "plus"],
            ToolbarIcon::AddColumn => &["plus.square.on.square", "plus.square", "plus"],
            ToolbarIcon::DeleteSelection => &["xmark.square", "trash", "minus.square"],
            ToolbarIcon::MoveRowUp => &["arrow.up.to.line.compact", "arrow.up"],
            ToolbarIcon::MoveRowDown => &["arrow.down.to.line.compact", "arrow.down"],
            ToolbarIcon::MoveColumnLeft => &["arrow.left.to.line.compact", "arrow.left"],
            ToolbarIcon::MoveColumnRight => &["arrow.right.to.line.compact", "arrow.right"],
            ToolbarIcon::Save => &["square.and.arrow.down", "tray.and.arrow.down"],
        }
    }

    /// The spoken name of the action.
    pub open spec fn label_text(self) -> Seq<char> {
        match self {
            ToolbarIcon::Formatting => "table formatting"@,
            ToolbarIcon::SortFilter => "sort and filter"@,
            ToolbarIcon::Undo => "undo"@,
            ToolbarIcon::Redo => "redo"@,
            ToolbarIcon::Copy => "copy"@,
            ToolbarIcon::Find => "find"@,
            ToolbarIcon::AddRow => "add row"@,
            ToolbarIcon::AddColumn => "add column"@,
            ToolbarIcon::DeleteSelection => "delete selection"@,
            ToolbarIcon::MoveRowUp => "move row up"@,
            ToolbarIcon::MoveRowDown => "move row down"@,
            ToolbarIcon::MoveColumnLeft => "move column left"@,
            ToolbarIcon::MoveColumnRight => "move column right"@,
            ToolbarIcon::Save => "save"@,
        }
    }

    /// The spoken name of the action.
    pub fn accessibility_label(self) -> (s: &'static str)
        ensures
            s@ == self.label_text(),
    {
        match self {
            ToolbarIcon::Formatting => "table formatting",
            ToolbarIcon::SortFilter => "sort and filter",
            ToolbarIcon::Undo => "undo",
            ToolbarIcon::Redo => "redo",
            ToolbarIcon::Copy => "copy",
            ToolbarIcon::Find => "find",
            ToolbarIcon::AddRow => "add row",
            ToolbarIcon::AddColumn => "add column",
            ToolbarIcon::DeleteSelection => "delete selection",
            ToolbarIcon::MoveRowUp => "move row up",
            ToolbarIcon::MoveRowDown => "move row down",
            ToolbarIcon::MoveColumnLeft => "move column left",
            ToolbarIcon::MoveColumnRight => "move column right",
            ToolbarIcon::Save => "save",
        }
    }
}

} // verus!
