//! The reader's saved settings: the last document, the home grid's sort
//! and the armed tool, as the keys stored in the settings file, and what
//! a read-back settings file means.

use vstd::prelude::*;
use crate::home::Sort;
use crate::toolbar::Tool;
use crate::store::{join_path, path_in};
use crate::strs::chars_of;

verus! {

/// The settings file under the data directory.
pub fn settings_path(data_dir: &str) -> (p: String)
    ensures
        p@ == join_path(data_dir@, "settings.json"@),
{
    path_in(data_dir, &chars_of("settings.json"))
}

pub open spec fn sort_key_spec(s: Sort) -> Seq<char> {
    match s {
        Sort::Title => "title"@,
        Sort::Opened => "opened"@,
    }
}

pub open spec fn tool_key_spec(t: Tool) -> Seq<char> {
    match t {
        Tool::Pen => "pen"@,
        Tool::Eraser => "eraser"@,
        Tool::Lasso => "lasso"@,
    }
}

/// The key a sort is saved as.
pub fn sort_key(s: Sort) -> (k: &'static str)
    ensures
        k@ == sort_key_spec(s),
{
    match s {
        Sort::Title => "title",
        Sort::Opened => "opened",
    }
}

/// The key a tool is saved as.
pub fn tool_key(t: Tool) -> (k: &'static str)
    ensures
        k@ == tool_key_spec(t),
{
    match t {
        Tool::Pen => "pen",
        Tool::Eraser => "eraser",
        Tool::Lasso => "lasso",
    }
}

/// The sort a saved key names: anything but "title" is by recency.
pub open spec fn sort_of_key(k: Option<Seq<char>>) -> Sort {
    if k == Some("title"@) {
        Sort::Title
    } else {
        Sort::Opened
    }
}

/// The tool a saved key names: anything unknown is the pen.
pub open spec fn tool_of_key(k: Option<Seq<char>>) -> Tool {
    if k == Some("eraser"@) {
        Tool::Eraser
    } else if k == Some("lasso"@) {
        Tool::Lasso
    } else {
        Tool::Pen
    }
}

/// The string fields of a settings file as read (None when absent or not
/// a string).
pub struct SettingsFields {
    pub last_doc: Option<String>,
    pub sort: Option<String>,
    pub tool: Option<String>,
}

pub open spec fn opt_chars(o: Option<String>) -> Option<Seq<char>> {
    match o {
        Some(s) => Some(s@),
        None => None,
    }
}

fn is_text(s: &String, lit: &str) -> (b: bool)
    ensures
        b == (s@ == lit@),
{
    let a = chars_of(s.as_str());
    let l = chars_of(lit);
    if a.len() != l.len() {
        return false;
    }
    let m = crate::text::matches_at(&a, 0, &l);
    proof {
        if m {
            assert(a@ =~= l@);
        } else if a@ == l@ {
            assert(a@.subrange(0, l@.len() as int) =~= l@);
        }
    }
    m
}

/// The settings a read settings file gives: the last document (empty when
/// none), the sort and the tool; without a file, the defaults.
pub fn load_settings(file: Option<SettingsFields>) -> (r: (String, Sort, Tool))
    ensures
        match file {
            Some(f) => {
                &&& r.0@ == match f.last_doc {
                    Some(d) => d@,
                    None => Seq::<char>::empty(),
                }
                &&& r.1 == sort_of_key(opt_chars(f.sort))
                &&& r.2 == tool_of_key(opt_chars(f.tool))
            },
            None => r.0@ == Seq::<char>::empty() && r.1 == Sort::Opened && r.2 == Tool::Pen,
        },
{
    match file {
        Some(f) => {
            let last = match f.last_doc {
                Some(d) => d,
                None => String::new(),
            };
            let sort = match &f.sort {
                Some(k) => if is_text(k, "title") {
                    Sort::Title
                } else {
                    Sort::Opened
                },
                None => Sort::Opened,
            };
            let tool = match &f.tool {
                Some(k) => if is_text(k, "eraser") {
                    Tool::Eraser
                } else if is_text(k, "lasso") {
                    Tool::Lasso
                } else {
                    Tool::Pen
                },
                None => Tool::Pen,
            };
            (last, sort, tool)
        },
        None => (String::new(), Sort::Opened, Tool::Pen),
    }
}

/// Saved settings read back give the same sort and tool.
pub proof fn lemma_settings_roundtrip(s: Sort, t: Tool)
    ensures
        sort_of_key(Some(sort_key_spec(s))) == s,
        tool_of_key(Some(tool_key_spec(t))) == t,
{
    reveal_strlit("title");
    reveal_strlit("opened");
    reveal_strlit("pen");
    reveal_strlit("eraser");
    reveal_strlit("lasso");
    if s == Sort::Opened {
        assert("opened"@ != "title"@) by {
            assert("opened"@.len() != "title"@.len());
        }
    }
    if t == Tool::Pen {
        assert("pen"@.len() != "eraser"@.len());
        assert("pen"@.len() != "lasso"@.len());
    }
    if t == Tool::Lasso {
        assert("lasso"@.len() != "eraser"@.len());
    }
}

} // verus!
