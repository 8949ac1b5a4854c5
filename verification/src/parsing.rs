//! Configuration parsing: the recognized keys of the `default` section of an
//! INI-style configuration text.

use crate::strutil::{parse_u64, parse_u64_spec, remove_quotes, without_quotes};
use vstd::prelude::*;
use vstd::string::StringExecFns;

verus! {

#[verifier::external_type_specification]
#[verifier::external_body]
pub struct ExIni(configparser::ini::Ini);

/// The value configparser's `get` returns on this parsed configuration for a
/// section and key.
pub uninterp spec fn ini_lookup(i: configparser::ini::Ini, section: Seq<char>, key: Seq<char>) -> Option<
    Seq<char>,
>;

/// The value `get` returns for a section and key after a successful parse of
/// this configuration text.
pub uninterp spec fn ini_text_lookup(text: Seq<char>, section: Seq<char>, key: Seq<char>) -> Option<
    Seq<char>,
>;

/// Whether configparser's `read` accepts this configuration text.
pub uninterp spec fn ini_parses(text: Seq<char>) -> bool;

/// Relies on configparser's `Ini::new` and `Ini::read`: `read` replaces the
/// stored map with the parse of `text` alone, so whether it succeeds and
/// what every later `get` returns are functions of `text`.
#[verifier::external_body]
fn ini_from_text(text: &str) -> (r: Option<configparser::ini::Ini>)
    ensures
        r is Some <==> ini_parses(text@),
        r matches Some(i) ==> forall|s: Seq<char>, k: Seq<char>|
            #[trigger] ini_lookup(i, s, k) == ini_text_lookup(text@, s, k),
{
    let mut ini = configparser::ini::Ini::new();
    match ini.read(text.to_string()) {
        Ok(_) => Some(ini),
        Err(_) => None,
    }
}

/// Relies on configparser's `Ini::get`: the stored value for the section and
/// key, if one is present.
#[verifier::external_body]
fn ini_get(i: &configparser::ini::Ini, section: &str, key: &str) -> (r: Option<String>)
    ensures
        r matches Some(v) ==> ini_lookup(*i, section@, key@) == Some(v@),
        r is None ==> ini_lookup(*i, section@, key@) is None,
{
    i.get(section, key)
}

/// The run configuration: worker pool sizes, the input directory, and the
/// two report destinations.
pub struct Config {
    pub indexing_threads: u64,
    pub merging_threads: u64,
    pub indir: String,
    pub out_by_a: String,
    pub out_by_n: String,
}

impl Config {
    /// A configuration with the given indexing pool size and paths.  Quote
    /// characters are stripped from the paths, and the merging pool defaults
    /// to one thread.
    pub fn new(indexing_threads: u64, indir: &str, out_by_a: &str, out_by_n: &str) -> (r: Self)
        ensures
            r.indexing_threads == indexing_threads,
            r.merging_threads == 1,
            r.indir@ == without_quotes(indir@),
            r.out_by_a@ == without_quotes(out_by_a@),
            r.out_by_n@ == without_quotes(out_by_n@),
    {
        Config {
            indexing_threads,
            merging_threads: 1,
            indir: remove_quotes(indir),
            out_by_a: remove_quotes(out_by_a),
            out_by_n: remove_quotes(out_by_n),
        }
    }
}

/// The error of a configuration that is missing a required key, holds a
/// malformed value, or does not parse at all.
#[derive(Debug)]
pub struct ConfigParseError {}

impl ConfigParseError {
    /// A short description of the error.
    pub fn message(&self) -> (r: String)
        ensures
            r@ == "Config parsing error"@,
    {
        String::from_str("Config parsing error")
    }
}

/// The value stored for `key` in the `default` section of `text`.
pub open spec fn cfg_value(text: Seq<char>, key: Seq<char>) -> Option<Seq<char>> {
    ini_text_lookup(text, "default"@, key)
}

/// A present value that parses as a positive 64-bit count.
pub open spec fn is_positive_count(v: Option<Seq<char>>) -> bool {
    v matches Some(s) && (parse_u64_spec(s) matches Some(n) && n >= 1)
}

/// A configuration text that yields a run configuration: it parses, the
/// three required paths are present, the required indexing pool size is a
/// positive count, and the optional merging pool size, when present, is one
/// too.
pub open spec fn config_text_ok(text: Seq<char>) -> bool {
    &&& ini_parses(text)
    &&& is_positive_count(cfg_value(text, "indexing_threads"@))
    &&& cfg_value(text, "indir"@) is Some
    &&& cfg_value(text, "out_by_a"@) is Some
    &&& cfg_value(text, "out_by_n"@) is Some
    &&& (cfg_value(text, "merging_threads"@) is Some ==> is_positive_count(
        cfg_value(text, "merging_threads"@),
    ))
}

/// Parses a configuration text.  The run configuration comes back exactly
/// when [`config_text_ok`] holds of the text; every field of it is pinned to
/// the stored values.
pub fn parse_config(text: &str) -> (r: Result<Config, ConfigParseError>)
    ensures
        r is Ok <==> config_text_ok(text@),
        r matches Ok(c) ==> {
            &&& (cfg_value(text@, "indexing_threads"@) matches Some(s) && parse_u64_spec(s)
                == Some(c.indexing_threads))
            &&& (cfg_value(text@, "indir"@) matches Some(s) && c.indir@ == without_quotes(s))
            &&& (cfg_value(text@, "out_by_a"@) matches Some(s) && c.out_by_a@ == without_quotes(
                s,
            ))
            &&& (cfg_value(text@, "out_by_n"@) matches Some(s) && c.out_by_n@ == without_quotes(
                s,
            ))
            &&& (match cfg_value(text@, "merging_threads"@) {
                Some(s) => parse_u64_spec(s) == Some(c.merging_threads),
                None => c.merging_threads == 1,
            })
            &&& c.indexing_threads >= 1
            &&& c.merging_threads >= 1
        },
{
    let ini = match ini_from_text(text) {
        Some(i) => i,
        None => {
            return Err(ConfigParseError {  });
        },
    };
    let threads_str = match ini_get(&ini, "default", "indexing_threads") {
        Some(v) => v,
        None => {
            return Err(ConfigParseError {  });
        },
    };
    let indexing_threads = match parse_u64(threads_str.as_str()) {
        Some(n) => {
            if n >= 1 {
                n
            } else {
                return Err(ConfigParseError {  });
            }
        },
        None => {
            return Err(ConfigParseError {  });
        },
    };
    let indir = match ini_get(&ini, "default", "indir") {
        Some(v) => v,
        None => {
            return Err(ConfigParseError {  });
        },
    };
    let out_by_a = match ini_get(&ini, "default", "out_by_a") {
        Some(v) => v,
        None => {
            return Err(ConfigParseError {  });
        },
    };
    let out_by_n = match ini_get(&ini, "default", "out_by_n") {
        Some(v) => v,
        None => {
            return Err(ConfigParseError {  });
        },
    };
    let mut config = Config::new(
        indexing_threads,
        indir.as_str(),
        out_by_a.as_str(),
        out_by_n.as_str(),
    );
    match ini_get(&ini, "default", "merging_threads") {
        None => {},
        Some(v) => {
            match parse_u64(v.as_str()) {
                Some(m) => {
                    if m >= 1 {
                        config.merging_threads = m;
                    } else {
                        return Err(ConfigParseError {  });
                    }
                },
                None => {
                    return Err(ConfigParseError {  });
                },
            }
        },
    }
    Ok(config)
}

} // verus!
