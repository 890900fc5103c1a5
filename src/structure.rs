use vstd::prelude::*;

use crate::json::Json;

verus! {

/// One row of the store: its root key and its document.
#[derive(Debug)]
pub struct DataSet {
    pub id: String,
    pub value: Json,
}

/// Where the store keeps its rows: the database file and the table in it.
#[derive(Debug, Clone)]
pub struct SQLiteDriverOptions {
    pub file_name: String,
    pub table_name: String,
}

/// The database file used where none is given.
pub open spec fn default_file_name() -> Seq<char> {
    seq!['j', 's', 'o', 'n', '.', 's', 'q', 'l', 'i', 't', 'e']
}

/// The table used where none is given.
pub open spec fn default_table_name() -> Seq<char> {
    seq!['j', 's', 'o', 'n']
}

impl SQLiteDriverOptions {
    /// The given options, or the default file and table where none are given.
    pub fn or_default(options: Option<SQLiteDriverOptions>) -> (r: SQLiteDriverOptions)
        ensures
            match options {
                Some(o) => r.file_name@ == o.file_name@ && r.table_name@ == o.table_name@,
                None => r.file_name@ == default_file_name() && r.table_name@ == default_table_name(),
            },
    {
        match options {
            Some(o) => o,
            None => {
                proof {
                    reveal_strlit("json.sqlite");
                    reveal_strlit("json");
                }
                let file_name = String::from_str("json.sqlite");
                let table_name = String::from_str("json");
                assert(file_name@ =~= default_file_name());
                assert(table_name@ =~= default_table_name());
                SQLiteDriverOptions { file_name, table_name }
            },
        }
    }
}

} // verus!
