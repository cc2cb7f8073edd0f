//! The columns of the view.
use vstd::prelude::*;

use crate::numbers::{decimal, decimal_text};
use crate::text::same_text;

verus! {

/// What a column shows.
#[derive(Clone, Copy, Debug, PartialEq, Eq, Structural)]
pub enum UiColumnType {
    Duration,
    Time,
    Datetime,
    Directory,
    Host,
    User,
    Exit,
    Command,
}

impl UiColumnType {
    /// The name of the column in the settings.
    pub open spec fn name(self) -> Seq<char> {
        match self {
            UiColumnType::Duration => "duration"@,
            UiColumnType::Time => "time"@,
            UiColumnType::Datetime => "datetime"@,
            UiColumnType::Directory => "directory"@,
            UiColumnType::Host => "host"@,
            UiColumnType::User => "user"@,
            UiColumnType::Exit => "exit"@,
            UiColumnType::Command => "command"@,
        }
    }

    /// The column of a name.
    pub fn from_name(name: &str) -> (column: Option<UiColumnType>)
        ensures
            column matches Some(c) ==> c.name() == name@,
            column is None ==> forall|c: UiColumnType| #[trigger] c.name() != name@,
    {
        if same_text(name, "duration") {
            Some(UiColumnType::Duration)
        } else if same_text(name, "time") {
            Some(UiColumnType::Time)
        } else if same_text(name, "datetime") {
            Some(UiColumnType::Datetime)
        } else if same_text(name, "directory") {
            Some(UiColumnType::Directory)
        } else if same_text(name, "host") {
            Some(UiColumnType::Host)
        } else if same_text(name, "user") {
            Some(UiColumnType::User)
        } else if same_text(name, "exit") {
            Some(UiColumnType::Exit)
        } else if same_text(name, "command") {
            Some(UiColumnType::Command)
        } else {
            None
        }
    }

    /// How many characters wide the column is unless the settings say otherwise, on Windows,
    /// where exit codes are longer, or elsewhere.
    pub open spec fn width_on(self, windows: bool) -> u16 {
        match self {
            UiColumnType::Duration => 5,
            UiColumnType::Time => 9,
            UiColumnType::Datetime => 16,
            UiColumnType::Directory => 20,
            UiColumnType::Host => 15,
            UiColumnType::User => 10,
            UiColumnType::Exit => if windows {
                11
            } else {
                3
            },
            UiColumnType::Command => 0,
        }
    }

    /// How many characters wide the column is unless the settings say otherwise, on Windows or
    /// elsewhere.
    pub fn default_width(&self, windows: bool) -> (width: u16)
        ensures
            width == self.width_on(windows),
    {
        match self {
            UiColumnType::Duration => 5,
            UiColumnType::Time => 9,
            UiColumnType::Datetime => 16,
            UiColumnType::Directory => 20,
            UiColumnType::Host => 15,
            UiColumnType::User => 10,
            UiColumnType::Exit => if windows {
                11
            } else {
                3
            },
            UiColumnType::Command => 0,
        }
    }
}

/// A column.
#[derive(Clone, Copy, Debug, PartialEq, Eq, Structural)]
pub struct UiColumn {
    pub column_type: UiColumnType,
    pub width: u16,
    /// Whether the column takes up the room that the others leave.
    pub expand: bool,
}

/// What is wrong with the columns.
#[derive(Clone, Copy, Debug, PartialEq, Eq, Structural)]
pub enum UiError {
    /// A column does not say what it shows.
    MissingType,
    /// More than one column takes up the room that the others leave.
    TooManyExpand { count: usize },
}

impl UiError {
    /// What is wrong, in words.
    pub open spec fn message(self) -> Seq<char> {
        match self {
            UiError::MissingType => "missing field `type`"@,
            UiError::TooManyExpand { count } => "Only one column can have expand = true, but "@
                + decimal(count as nat) + " columns are set to expand"@,
        }
    }

    /// What is wrong, in words.
    pub fn text(&self) -> (out: String)
        ensures
            out@ == self.message(),
    {
        match self {
            UiError::MissingType => "missing field `type`".to_owned(),
            UiError::TooManyExpand { count } => {
                let mut out = "Only one column can have expand = true, but ".to_owned();
                let digits = decimal_text(*count as u64);
                out.append(digits.as_str());
                out.append(" columns are set to expand");
                out
            },
        }
    }
}

/// What a key in the settings of a column stands for.
#[derive(Clone, Copy, Debug, PartialEq, Eq, Structural)]
pub enum ColumnField {
    Type,
    Width,
    Expand,
    Other,
}

/// What a key in the settings of a column stands for.
pub fn column_field(key: &str) -> (field: ColumnField)
    ensures
        field == (if key@ == "type"@ {
            ColumnField::Type
        } else if key@ == "width"@ {
            ColumnField::Width
        } else if key@ == "expand"@ {
            ColumnField::Expand
        } else {
            ColumnField::Other
        }),
{
    if same_text(key, "type") {
        ColumnField::Type
    } else if same_text(key, "width") {
        ColumnField::Width
    } else if same_text(key, "expand") {
        ColumnField::Expand
    } else {
        ColumnField::Other
    }
}

impl UiColumn {
    /// A column of a width. That of commands takes up the room that the others leave.
    pub open spec fn of_width(column_type: UiColumnType, width: u16) -> UiColumn {
        UiColumn { column_type, width, expand: column_type == UiColumnType::Command }
    }

    /// A column as wide as it is unless the settings say otherwise, on Windows or elsewhere.
    pub open spec fn new_on(column_type: UiColumnType, windows: bool) -> UiColumn {
        UiColumn {
            column_type,
            width: column_type.width_on(windows),
            expand: column_type == UiColumnType::Command,
        }
    }

    /// A column as wide as it is unless the settings say otherwise, on Windows or elsewhere.
    pub fn new(column_type: UiColumnType, windows: bool) -> (column: Self)
        ensures
            column == UiColumn::new_on(column_type, windows),
    {
        UiColumn {
            width: column_type.default_width(windows),
            expand: column_type == UiColumnType::Command,
            column_type,
        }
    }

    /// A column of a width. That of commands takes up the room that the others leave.
    pub fn with_width(column_type: UiColumnType, width: u16) -> (column: Self)
        ensures
            column == UiColumn::of_width(column_type, width),
    {
        UiColumn { column_type, width, expand: column_type == UiColumnType::Command }
    }

    /// A column from what the settings say of it, on Windows or elsewhere. They have to say what
    /// it shows.
    pub fn from_parts(
        column_type: Option<UiColumnType>,
        width: Option<u16>,
        expand: Option<bool>,
        windows: bool,
    ) -> (out: Result<UiColumn, UiError>)
        ensures
            match column_type {
                None => out == Err::<UiColumn, UiError>(UiError::MissingType),
                Some(t) => out == Ok::<UiColumn, UiError>(
                    UiColumn {
                        column_type: t,
                        width: match width {
                            Some(w) => w,
                            None => t.width_on(windows),
                        },
                        expand: match expand {
                            Some(e) => e,
                            None => t == UiColumnType::Command,
                        },
                    },
                ),
            },
    {
        let column_type = match column_type {
            Some(t) => t,
            None => return Err(UiError::MissingType),
        };
        let width: u16 = match width {
            Some(w) => w,
            None => column_type.default_width(windows),
        };
        let expand: bool = match expand {
            Some(e) => e,
            None => column_type == UiColumnType::Command,
        };
        Ok(UiColumn { column_type, width, expand })
    }
}

/// The view.
#[derive(Debug)]
pub struct Ui {
    pub columns: Vec<UiColumn>,
}

/// Picks out the columns that take up the room that the others leave.
pub open spec fn expands() -> spec_fn(UiColumn) -> bool {
    |c: UiColumn| c.expand
}

/// The columns that are shown unless the settings say otherwise: how long a command took, when it
/// was run, and the command. They are as wide on every system.
pub open spec fn columns_shown() -> Seq<UiColumn> {
    seq![
        UiColumn { column_type: UiColumnType::Duration, width: 5, expand: false },
        UiColumn { column_type: UiColumnType::Time, width: 9, expand: false },
        UiColumn { column_type: UiColumnType::Command, width: 0, expand: true },
    ]
}

impl Ui {
    /// The columns that are shown unless the settings say otherwise.
    pub fn default_columns() -> (columns: Vec<UiColumn>)
        ensures
            columns@ == columns_shown(),
    {
        let columns = vec![
            UiColumn::new(UiColumnType::Duration, false),
            UiColumn::new(UiColumnType::Time, false),
            UiColumn::new(UiColumnType::Command, false),
        ];
        assert(columns@ =~= columns_shown());
        columns
    }

    /// Whether the columns fit together: no more than one may take up the room that the others
    /// leave.
    pub fn validate(&self) -> (out: Result<(), UiError>)
        ensures
            out == (if self.columns@.filter(expands()).len() > 1 {
                Err::<(), UiError>(
                    UiError::TooManyExpand { count: self.columns@.filter(expands()).len() as usize },
                )
            } else {
                Ok(())
            }),
    {
        let mut count: usize = 0;
        let mut i: usize = 0;
        proof {
            reveal(Seq::filter);
            assert(self.columns@.take(0).filter(expands()).len() == 0);
        }
        while i < self.columns.len()
            invariant
                i <= self.columns.len(),
                count <= i,
                count == self.columns@.take(i as int).filter(expands()).len(),
            decreases self.columns.len() - i,
        {
            proof {
                reveal(Seq::filter);
                assert(self.columns@.take(i + 1).drop_last() =~= self.columns@.take(i as int));
            }
            if self.columns[i].expand {
                count = count + 1;
            }
            i = i + 1;
        }
        assert(self.columns@.take(i as int) =~= self.columns@);
        if count > 1 {
            Err(UiError::TooManyExpand { count })
        } else {
            Ok(())
        }
    }
}

impl Default for Ui {
    fn default() -> (out: Self)
        ensures
            out.columns@ == columns_shown(),
    {
        Ui { columns: Self::default_columns() }
    }
}

/// The columns that are shown unless the settings say otherwise are new ones, on every system, and
/// fit together.
pub proof fn law_default_columns_valid(windows: bool)
    ensures
        columns_shown().filter(expands()).len() == 1,
        forall|i: int|
            0 <= i < columns_shown().len() ==> #[trigger] columns_shown()[i] == UiColumn::new_on(
                columns_shown()[i].column_type,
                windows,
            ),
{
    reveal_with_fuel(Seq::filter, 4);
    let columns = columns_shown();
    let two = columns.drop_last();
    let one = two.drop_last();
    assert(one.drop_last().len() == 0);
    assert(one.last() == columns[0] && two.last() == columns[1]);
}

/// A new column has the three fields of one of the default width. The column of commands, and no
/// other, takes up the room that the others leave and has no width of its own. Only the column of
/// exit codes has another width on Windows than elsewhere.
pub proof fn law_new_column(column_type: UiColumnType, windows: bool)
    ensures
        UiColumn::new_on(column_type, windows) == UiColumn::of_width(
            column_type,
            column_type.width_on(windows),
        ),
        UiColumn::new_on(column_type, windows).expand == (column_type == UiColumnType::Command),
        UiColumn::new_on(column_type, windows).width == 0 <==> column_type == UiColumnType::Command,
        column_type.width_on(true) == column_type.width_on(false) <==> column_type
            != UiColumnType::Exit,
{
}

} // verus!
