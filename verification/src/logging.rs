//! How verbose diagnostics are, and how they look: flags first, then the config, then a default.

use crate::cli::{Args, LogFormat};
use crate::config::LoggingConfig;
use crate::text;
use vstd::prelude::*;

verus! {

/// Whether a value names something, up to surrounding white space and the case of ASCII letters.
pub open spec fn names(value: Seq<char>, name: Seq<char>) -> bool {
    text::lower(text::trimmed(value)) == text::lower(name)
}

fn is_named(value: &str, name: &str) -> (r: bool)
    ensures
        r == names(value@, name@),
{
    let v = text::to_lower(text::trim(value).as_str());
    let n = text::to_lower(name);
    text::same(v.as_str(), n.as_str())
}

/// The level that a config value names. Whatever names none of the others is `info`.
pub open spec fn level_of(level: Option<Seq<char>>) -> Seq<char> {
    match level {
        Some(s) => if names(s, "error"@) {
            "error"@
        } else if names(s, "warn"@) {
            "warn"@
        } else if names(s, "debug"@) {
            "debug"@
        } else if names(s, "trace"@) {
            "trace"@
        } else {
            "info"@
        },
        None => "info"@,
    }
}

/// The text of an optional value.
pub open spec fn opt_view(s: Option<String>) -> Option<Seq<char>> {
    match s {
        Some(t) => Some(t@),
        None => None,
    }
}

/// The level that a config value names.
pub fn normalize_level(level: Option<&str>) -> (r: &'static str)
    ensures
        r@ == level_of(match level {
            Some(s) => Some(s@),
            None => None,
        }),
{
    match level {
        None => "info",
        Some(s) => if is_named(s, "error") {
            "error"
        } else if is_named(s, "warn") {
            "warn"
        } else if is_named(s, "debug") {
            "debug"
        } else if is_named(s, "trace") {
            "trace"
        } else {
            "info"
        },
    }
}

/// The level: the silent flag, the number of verbose flags, or the config.
pub open spec fn active_level(args: Args, file: LoggingConfig) -> Seq<char> {
    if args.silent {
        "error"@
    } else if args.verbose == 0 {
        level_of(opt_view(file.level))
    } else if args.verbose == 1 {
        "debug"@
    } else {
        "trace"@
    }
}

/// The filter directive: this crate at the active level, all others at `warn`.
pub fn build_filter(args: &Args, file: &LoggingConfig, crate_name: &str) -> (r: String)
    ensures
        r@ == "warn,"@ + crate_name@ + "="@ + active_level(*args, *file),
{
    let level = if args.silent {
        "error"
    } else if args.verbose == 0 {
        match &file.level {
            Some(s) => normalize_level(Some(s.as_str())),
            None => normalize_level(None),
        }
    } else if args.verbose == 1 {
        "debug"
    } else {
        "trace"
    };
    "warn,".to_string().concat(crate_name).concat("=").concat(level)
}

/// The format: the flag, or JSON where the config asks for it.
pub open spec fn format_of(args: Args, file: LoggingConfig) -> LogFormat {
    match args.log_format {
        Some(f) => f,
        None => match file.format {
            Some(s) => if names(s@, "json"@) {
                LogFormat::Json
            } else {
                LogFormat::Pretty
            },
            None => LogFormat::Pretty,
        },
    }
}

/// How diagnostics are rendered.
pub fn resolve_format(args: &Args, file: &LoggingConfig) -> (r: LogFormat)
    ensures
        r == format_of(*args, *file),
{
    match args.log_format {
        Some(f) => f,
        None => match &file.format {
            Some(s) => if is_named(s.as_str(), "json") {
                LogFormat::Json
            } else {
                LogFormat::Pretty
            },
            None => LogFormat::Pretty,
        },
    }
}

/// Whether the time of each operation is reported: where the flag or the config asks for it, and
/// never under the silent flag.
pub fn resolve_timing(args: &Args, file: &LoggingConfig) -> (r: bool)
    ensures
        r == (!args.silent && (args.timing || file.timing == Some(true))),
{
    !args.silent && (args.timing || match file.timing {
        Some(b) => b,
        None => false,
    })
}

/// A level is one of five names. White space around it and the case of its letters do not matter, and
/// what is no level is `info`.
pub proof fn law_level(s: Seq<char>)
    ensures
        ({
            let l = text::lower(text::trimmed(s));
            level_of(Some(s)) == if l == "error"@ || l == "warn"@ || l == "debug"@ || l == "trace"@ {
                l
            } else {
                "info"@
            }
        }),
        level_of(None) == "info"@,
{
    reveal_strlit("error");
    reveal_strlit("warn");
    reveal_strlit("debug");
    reveal_strlit("trace");
    assert(text::lower("error"@) =~= "error"@);
    assert(text::lower("warn"@) =~= "warn"@);
    assert(text::lower("debug"@) =~= "debug"@);
    assert(text::lower("trace"@) =~= "trace"@);
}

/// The silent flag makes it `error`, whatever else is given; then one verbose flag makes it `debug` and
/// more make it `trace`, whatever the config says.
pub proof fn law_flags_decide_level(args: Args, file: LoggingConfig)
    ensures
        args.silent ==> active_level(args, file) == "error"@,
        !args.silent && args.verbose == 1 ==> active_level(args, file) == "debug"@,
        !args.silent && args.verbose > 1 ==> active_level(args, file) == "trace"@,
        !args.silent && args.verbose == 0 && file.level is None ==> active_level(args, file) == "info"@,
        !args.silent && args.verbose == 0 && file.level is Some ==> active_level(args, file) == level_of(
            Some(file.level->0@),
        ),
{
}

/// The flag decides the format, and without it the config: JSON where it says `json`, up to white space
/// and case, and pretty otherwise.
pub proof fn law_format(args: Args, file: LoggingConfig)
    ensures
        args.log_format matches Some(f) ==> format_of(args, file) == f,
        args.log_format is None ==> (format_of(args, file) == LogFormat::Json <==> file.format is Some && text::lower(
            text::trimmed(file.format->0@),
        ) == "json"@),
{
    reveal_strlit("json");
    assert(text::lower("json"@) =~= "json"@);
}

} // verus!
