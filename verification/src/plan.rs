//! The dispatcher's decisions, as pure functions from the loaded table
//! and configuration to the texts to write and print. The outer
//! program performs the file writes and process launches these plans
//! call for.

use vstd::prelude::*;
use vstd::string::*;
use crate::cli::ConfigCommand;
use crate::codec::contains_space;
use crate::codec::has_space;
use crate::codec::serialize_entry;
use crate::codec::serialize_table;
use crate::codec::spec_entry_text;
use crate::codec::spec_serialize;
use crate::config::Config;
use crate::config::spec_default_config_text;
use crate::config::spec_join;
use crate::config::spec_render_config;
use crate::errors::BmarkError;
use crate::render::generate;
use crate::render::spec_generate;
use crate::table::BookmarkTable;
use crate::table::contains_name;
use crate::table::remove_name;
use crate::table::spec_insert;

verus! {

/// The final component of a path: everything after the last slash.
pub open spec fn rfind_slash(s: Seq<char>) -> int
    decreases s.len(),
{
    if s.len() == 0 {
        -1
    } else if s.last() == '/' {
        s.len() - 1
    } else {
        rfind_slash(s.drop_last())
    }
}

pub open spec fn last_segment(s: Seq<char>) -> Seq<char> {
    s.subrange(rfind_slash(s) + 1, s.len() as int)
}

proof fn lemma_rfind_slash_is(s: Seq<char>, i: int)
    requires
        0 <= i < s.len(),
        s[i] == '/',
        forall|j: int| i < j < s.len() ==> s[j] != '/',
    ensures
        rfind_slash(s) == i,
    decreases s.len(),
{
    if s.last() == '/' {
        assert(s[s.len() - 1] == '/');
    } else {
        let d = s.drop_last();
        assert(i < s.len() - 1);
        assert forall|j: int| i < j < d.len() implies d[j] != '/' by {
            assert(d[j] == s[j]);
        }
        lemma_rfind_slash_is(d, i);
    }
}

proof fn lemma_rfind_slash_none(s: Seq<char>)
    requires
        forall|j: int| 0 <= j < s.len() ==> s[j] != '/',
    ensures
        rfind_slash(s) == -1,
    decreases s.len(),
{
    if s.len() > 0 {
        let d = s.drop_last();
        assert forall|j: int| 0 <= j < d.len() implies d[j] != '/' by {
            assert(d[j] == s[j]);
        }
        lemma_rfind_slash_none(d);
    }
}

/// The final path component, as `add` derives a default name from the
/// working directory.
pub fn last_segment_of(s: &str) -> (r: String)
    ensures
        r@ == last_segment(s@),
{
    let n = s.unicode_len();
    let mut i: usize = n;
    loop
        invariant
            i <= n,
            n == s@.len(),
            forall|j: int| i <= j < n ==> s@[j] != '/',
        decreases i,
    {
        if i == 0 {
            proof {
                lemma_rfind_slash_none(s@);
            }
            let r = s.to_owned();
            proof {
                assert(r@ =~= last_segment(s@));
            }
            return r;
        }
        if s.get_char(i - 1) == '/' {
            proof {
                lemma_rfind_slash_is(s@, i - 1);
            }
            let r = s.substring_char(i, n).to_owned();
            proof {
                assert(r@ =~= last_segment(s@));
            }
            return r;
        }
        i = i - 1;
    }
}

/// The name `add` will use: the given one, or the working directory's
/// final path component.
pub open spec fn effective_name(name: Option<String>, cwd: Seq<char>) -> Seq<char> {
    match name {
        Some(n) => n@,
        None => last_segment(cwd),
    }
}

/// Everything the `add` verb decides: the grown table, the one record
/// line to append to the store file, and the regenerated alias file.
pub struct AddPlan {
    /// The table with the new bookmark.
    pub table: BookmarkTable,
    /// The name the bookmark was stored under.
    pub name: String,
    /// The record to append to the store file.
    pub append_line: String,
    /// The whole new alias file.
    pub alias_text: String,
    /// The stored name holds a space: warn, the bookmark gets no alias.
    pub space_warning: bool,
}

/// Decides `add`: derives the effective name, refuses a duplicate or
/// empty name, and renders the record to append and the new alias
/// file.
pub fn plan_add(table: &BookmarkTable, name: Option<String>, cwd: &String, config: &Config) -> (r:
    Result<AddPlan, BmarkError>)
    requires
        table.wf(),
    ensures
        ({
            let eff = effective_name(name, cwd@);
            match r {
                Ok(p) => eff.len() > 0 && !contains_name(table@, eff) && p.name@ == eff
                    && p.table@ == spec_insert(table@, eff, cwd@) && p.table.wf()
                    && p.append_line@ == spec_entry_text(eff, cwd@) && p.alias_text@
                    == spec_generate(p.table@, config.alias_prefix@) && p.space_warning
                    == has_space(eff),
                Err(e) => (e is InvalidName && eff.len() == 0) || (contains_name(table@, eff)
                    && eff.len() > 0 && (e matches BmarkError::DuplicateName(n2) && n2@ == eff)),
            }
        }),
{
    let eff: String = match name {
        Some(n) => n,
        None => last_segment_of(cwd.as_str()),
    };
    if eff.as_str().unicode_len() == 0 {
        return Err(BmarkError::InvalidName);
    }
    let append_line = serialize_entry(&eff, cwd);
    let space_warning = contains_space(eff.as_str());
    match table.insert(eff.clone(), cwd.clone()) {
        Err(e) => Err(e),
        Ok(t2) => {
            let alias_text = generate(&t2, &config.alias_prefix);
            Ok(
                AddPlan {
                    table: t2,
                    name: eff,
                    append_line,
                    alias_text,
                    space_warning,
                },
            )
        },
    }
}

/// Everything the `rm` verb decides: the shrunk table, the whole new
/// store file, and the regenerated alias file.
pub struct RmPlan {
    /// The table without the removed bookmark.
    pub table: BookmarkTable,
    /// The whole new store file.
    pub store_text: String,
    /// The whole new alias file.
    pub alias_text: String,
}

/// Decides `rm`: refuses a name that is not stored; otherwise renders
/// the rewritten store file and the new alias file.
pub fn plan_rm(table: &BookmarkTable, name: &String, config: &Config) -> (r: Result<
    RmPlan,
    BmarkError,
>)
    requires
        table.wf(),
    ensures
        match r {
            Ok(p) => contains_name(table@, name@) && p.table@ == remove_name(table@, name@)
                && p.table.wf() && p.store_text@ == spec_serialize(p.table@) && p.alias_text@
                == spec_generate(p.table@, config.alias_prefix@),
            Err(e) => !contains_name(table@, name@) && (e matches BmarkError::NotFound(n) && n@
                == name@),
        },
{
    match table.remove(name) {
        Err(e) => Err(e),
        Ok(t2) => {
            let store_text = serialize_table(&t2);
            let alias_text = generate(&t2, &config.alias_prefix);
            Ok(RmPlan { table: t2, store_text, alias_text })
        },
    }
}

/// What a `config` subcommand asks the outer program to do.
pub enum ConfigPlan {
    /// Print this rendering of the current configuration.
    Show(String),
    /// Write this text as a fresh settings file; refuse to overwrite.
    Create(String),
    /// Open the settings file in the editor.
    Edit,
    /// Print this `source` command for the alias file.
    SourceCmd(String),
}

/// Decides a `config` subcommand: which text to print or write, or
/// that the editor is wanted.
pub fn plan_config(cmd: &ConfigCommand, config: &Config) -> (r: ConfigPlan)
    ensures
        match cmd {
            ConfigCommand::Show(_) => r matches ConfigPlan::Show(s) && s@ == spec_render_config(
                *config,
            ),
            ConfigCommand::Create(_) => r matches ConfigPlan::Create(s) && s@
                == spec_default_config_text(),
            ConfigCommand::Edit(_) => r is Edit,
            ConfigCommand::SourceCmd(_) => r matches ConfigPlan::SourceCmd(s) && s@ == "source \""@
                + spec_join(config.data_dir@, "aliases.sh"@) + "\""@,
        },
{
    match cmd {
        ConfigCommand::Show(_) => ConfigPlan::Show(config.render()),
        ConfigCommand::Create(_) => ConfigPlan::Create(Config::default_file_content()),
        ConfigCommand::Edit(_) => ConfigPlan::Edit,
        ConfigCommand::SourceCmd(_) => ConfigPlan::SourceCmd(config.source_cmd_line()),
    }
}

} // verus!
