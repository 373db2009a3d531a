//! Configuration: plain `NAME=value` pairs parsed into the relay's settings.
//!
//! The surrounding process collects the relevant environment variables into a
//! list of pairs; everything here is a pure function of that list.

use vstd::prelude::*;
use vstd::string::StrSliceExecFns;

use crate::flush_strategy::{
    dec_val, digits_of, spec_u64_ok, FlushStrategy, FlushStrategyError, ParsedStrategy,
    parse_u64_chars, spec_parse,
};
use crate::strutil::{
    find_char, find_char_exec, lemma_find_char_bounds, pairs_view, spec_split, spec_trim, split_on,
    str_eq, strings_view, trim_exec,
};

verus! {

/// Whether outbound request bodies are gzip-compressed.
#[derive(Debug, Clone, Copy, PartialEq, Eq, Structural)]
pub enum Compression {
    Gzip,
    Uncompressed,
}

/// Why the configuration was rejected.
#[derive(Debug)]
pub enum ConfigError {
    /// The endpoint variable is required but absent or empty.
    EndpointMissing,
    /// The endpoint variable does not parse as a URL.
    EndpointInvalidUrl(String),
    /// A numeric variable (name, value) does not parse or is out of range.
    InvalidNumeric(String, String),
    /// The compression variable is neither `gzip` nor `none`.
    InvalidCompression(String),
    /// The flush strategy variable does not parse.
    FlushStrategy(FlushStrategyError),
}

#[verifier::external_type_specification]
#[verifier::external_body]
pub struct ExUrl(url::Url);

/// Whether `url::Url::parse` accepts a string; a function of the string
/// alone.
pub uninterp spec fn url_parse_ok(s: Seq<char>) -> bool;

/// Relies on `url::Url::parse`: deterministic in its input; `Ok` on exactly
/// the strings the URL grammar admits.
#[verifier::external_body]
fn parse_url(s: &str) -> (r: Option<url::Url>)
    ensures
        r is Some <==> url_parse_ok(s@),
{
    url::Url::parse(s).ok()
}

/// The value of the first pair whose name matches.
pub open spec fn spec_lookup(vars: Seq<(String, String)>, name: Seq<char>) -> Option<Seq<char>>
    decreases vars.len(),
{
    if vars.len() == 0 {
        None
    } else if vars[0].0@ == name {
        Some(vars[0].1@)
    } else {
        spec_lookup(vars.drop_first(), name)
    }
}

/// Look a variable up by name.
pub fn lookup(vars: &Vec<(String, String)>, name: &str) -> (r: Option<String>)
    ensures
        match r {
            Some(v) => spec_lookup(vars@, name@) == Some(v@),
            None => spec_lookup(vars@, name@) is None,
        },
{
    let mut i: usize = 0;
    proof {
        assert(vars@.skip(0) =~= vars@);
    }
    while i < vars.len()
        invariant
            i <= vars@.len(),
            spec_lookup(vars@, name@) == spec_lookup(vars@.skip(i as int), name@),
        decreases vars@.len() - i,
    {
        proof {
            assert(vars@.skip(i as int)[0] == vars@[i as int]);
            assert(vars@.skip(i as int).drop_first() =~= vars@.skip(i as int + 1));
        }
        if str_eq(vars[i].0.as_str(), name) {
            return Some(vars[i].1.clone());
        }
        i = i + 1;
    }
    proof {
        assert(vars@.skip(vars@.len() as int) =~= Seq::<(String, String)>::empty());
    }
    None
}

/// A decimal string whose value fits the given bound.
pub open spec fn spec_num_ok(v: Seq<char>, bound: nat) -> bool {
    spec_u64_ok(v) && dec_val(digits_of(v)) <= bound
}

/// The numeric value of such a string.
pub open spec fn spec_num_val(v: Seq<char>) -> nat {
    dec_val(digits_of(v))
}

/// Parse an optional port variable; absent means `default`.
pub fn parse_port(vars: &Vec<(String, String)>, name: &str, default: u16) -> (r: Result<
    u16,
    ConfigError,
>)
    ensures
        match spec_lookup(vars@, name@) {
            None => r == Ok::<u16, ConfigError>(default),
            Some(v) => {
                if spec_num_ok(v, u16::MAX as nat) {
                    r matches Ok(p) && p as nat == spec_num_val(v)
                } else {
                    r matches Err(ConfigError::InvalidNumeric(n, val)) && n@ == name@ && val@ == v
                }
            },
        },
{
    match lookup(vars, name) {
        None => Ok(default),
        Some(val) => {
            match parse_u64_chars(val.as_str()) {
                Some(x) => {
                    if x <= u16::MAX as u64 {
                        Ok(x as u16)
                    } else {
                        Err(ConfigError::InvalidNumeric(name.to_owned(), val))
                    }
                },
                None => Err(ConfigError::InvalidNumeric(name.to_owned(), val)),
            }
        },
    }
}

/// Parse an optional duration variable, in milliseconds; absent means
/// `default_ms`.
pub fn parse_duration_ms(vars: &Vec<(String, String)>, name: &str, default_ms: u64) -> (r: Result<
    u64,
    ConfigError,
>)
    ensures
        match spec_lookup(vars@, name@) {
            None => r == Ok::<u64, ConfigError>(default_ms),
            Some(v) => {
                if spec_num_ok(v, u64::MAX as nat) {
                    r matches Ok(ms) && ms as nat == spec_num_val(v)
                } else {
                    r matches Err(ConfigError::InvalidNumeric(n, val)) && n@ == name@ && val@ == v
                }
            },
        },
{
    match lookup(vars, name) {
        None => Ok(default_ms),
        Some(val) => {
            match parse_u64_chars(val.as_str()) {
                Some(x) => Ok(x),
                None => Err(ConfigError::InvalidNumeric(name.to_owned(), val)),
            }
        },
    }
}

/// Parse the compression variable: `gzip` (also the default) or `none`.
pub fn parse_compression(vars: &Vec<(String, String)>) -> (r: Result<Compression, ConfigError>)
    ensures
        match spec_lookup(vars@, "LAMBDA_OTEL_RELAY_COMPRESSION"@) {
            None => r == Ok::<Compression, ConfigError>(Compression::Gzip),
            Some(v) => {
                if v == "gzip"@ {
                    r == Ok::<Compression, ConfigError>(Compression::Gzip)
                } else if v == "none"@ {
                    r == Ok::<Compression, ConfigError>(Compression::Uncompressed)
                } else {
                    r matches Err(ConfigError::InvalidCompression(val)) && val@ == v
                }
            },
        },
{
    match lookup(vars, "LAMBDA_OTEL_RELAY_COMPRESSION") {
        None => Ok(Compression::Gzip),
        Some(val) => {
            if str_eq(val.as_str(), "gzip") {
                Ok(Compression::Gzip)
            } else if str_eq(val.as_str(), "none") {
                Ok(Compression::Uncompressed)
            } else {
                Err(ConfigError::InvalidCompression(val))
            }
        },
    }
}

/// The default eviction threshold: four mebibytes.
pub const DEFAULT_BUFFER_MAX_BYTES: usize = 4194304;

/// Parse the buffer limit: absent means the default, `0` disables eviction.
pub fn parse_buffer_max_bytes(vars: &Vec<(String, String)>, name: &str) -> (r: Result<
    Option<usize>,
    ConfigError,
>)
    ensures
        match spec_lookup(vars@, name@) {
            None => r == Ok::<Option<usize>, ConfigError>(Some(DEFAULT_BUFFER_MAX_BYTES)),
            Some(v) => {
                if spec_num_ok(v, usize::MAX as nat) {
                    if spec_num_val(v) == 0 {
                        r == Ok::<Option<usize>, ConfigError>(None)
                    } else {
                        r matches Ok(Some(b)) && b as nat == spec_num_val(v)
                    }
                } else {
                    r matches Err(ConfigError::InvalidNumeric(n, val)) && n@ == name@ && val@ == v
                }
            },
        },
{
    match lookup(vars, name) {
        None => Ok(Some(DEFAULT_BUFFER_MAX_BYTES)),
        Some(val) => {
            match parse_u64_chars(val.as_str()) {
                Some(x) => {
                    if x == 0 {
                        Ok(None)
                    } else if x <= usize::MAX as u64 {
                        Ok(Some(x as usize))
                    } else {
                        Err(ConfigError::InvalidNumeric(name.to_owned(), val))
                    }
                },
                None => Err(ConfigError::InvalidNumeric(name.to_owned(), val)),
            }
        },
    }
}

/// A `key=value` segment: trimmed key and value, `None` when there is no
/// `=` or the key is empty.
pub open spec fn spec_header_of(seg: Seq<char>) -> Option<(Seq<char>, Seq<char>)> {
    let i = find_char(seg, '=');
    if i < 0 {
        None
    } else {
        let k = spec_trim(seg.subrange(0, i));
        let v = spec_trim(seg.subrange(i + 1, seg.len() as int));
        if k.len() == 0 {
            None
        } else {
            Some((k, v))
        }
    }
}

fn header_of(seg: &str) -> (r: Option<(String, String)>)
    ensures
        match r {
            Some(kv) => spec_header_of(seg@) == Some((kv.0@, kv.1@)),
            None => spec_header_of(seg@) is None,
        },
{
    proof {
        lemma_find_char_bounds(seg@, '=');
    }
    let len = seg.unicode_len();
    match find_char_exec(seg, '=') {
        None => None,
        Some(i) => {
            let k = trim_exec(seg.substring_char(0, i));
            let v = trim_exec(seg.substring_char(i + 1, len));
            if k.unicode_len() == 0 {
                None
            } else {
                Some((k.to_owned(), v.to_owned()))
            }
        },
    }
}

/// The valid `key=value` pairs of a segment list, in order.
pub open spec fn spec_headers_list(segs: Seq<Seq<char>>) -> Seq<(Seq<char>, Seq<char>)>
    decreases segs.len(),
{
    if segs.len() == 0 {
        Seq::empty()
    } else {
        (match spec_header_of(segs[0]) {
            Some(kv) => seq![kv],
            None => Seq::empty(),
        }) + spec_headers_list(segs.drop_first())
    }
}

/// The header pairs of a raw comma-separated `k=v` list.
pub open spec fn spec_headers(raw: Seq<char>) -> Seq<(Seq<char>, Seq<char>)> {
    spec_headers_list(spec_split(raw, ','))
}

fn headers_of_segments(segs: Vec<String>) -> (r: Vec<(String, String)>)
    ensures
        pairs_view(r@) == spec_headers_list(strings_view(segs@)),
    decreases segs@.len(),
{
    let mut segs = segs;
    if segs.len() == 0 {
        let r: Vec<(String, String)> = Vec::new();
        proof {
            assert(pairs_view(r@) =~= Seq::<(Seq<char>, Seq<char>)>::empty());
        }
        return r;
    }
    let ghost segs0 = segs@;
    let first = segs.remove(0);
    proof {
        assert(segs@ =~= segs0.drop_first());
        assert(strings_view(segs@) =~= strings_view(segs0).drop_first());
        assert(strings_view(segs0)[0] == first@);
    }
    let head = header_of(first.as_str());
    let mut rest = headers_of_segments(segs);
    match head {
        Some(kv) => {
            let ghost rest0 = rest@;
            rest.insert(0, kv);
            proof {
                assert(rest@.drop_first() =~= rest0);
                assert(pairs_view(rest@) =~= seq![(rest@[0].0@, rest@[0].1@)] + pairs_view(rest0));
            }
            rest
        },
        None => {
            proof {
                assert(Seq::<(Seq<char>, Seq<char>)>::empty() + spec_headers_list(
                    strings_view(segs@),
                ) =~= spec_headers_list(strings_view(segs@)));
            }
            rest
        },
    }
}

/// Parse the export-headers variable: comma-separated `k=v` pairs, keys and
/// values trimmed, pairs without `=` or with an empty key dropped. Absent or
/// empty means no headers.
pub fn parse_headers(vars: &Vec<(String, String)>) -> (r: Vec<(String, String)>)
    ensures
        pairs_view(r@) == match spec_lookup(vars@, "LAMBDA_OTEL_RELAY_EXPORT_HEADERS"@) {
            None => Seq::<(Seq<char>, Seq<char>)>::empty(),
            Some(v) => if v.len() == 0 {
                Seq::<(Seq<char>, Seq<char>)>::empty()
            } else {
                spec_headers(v)
            },
        },
{
    match lookup(vars, "LAMBDA_OTEL_RELAY_EXPORT_HEADERS") {
        None => {
            let r: Vec<(String, String)> = Vec::new();
            proof {
                assert(pairs_view(r@) =~= Seq::<(Seq<char>, Seq<char>)>::empty());
            }
            r
        },
        Some(raw) => {
            if raw.as_str().unicode_len() == 0 {
                let r: Vec<(String, String)> = Vec::new();
                proof {
                    assert(pairs_view(r@) =~= Seq::<(Seq<char>, Seq<char>)>::empty());
                }
                r
            } else {
                let segs = split_on(raw.as_str(), ',');
                headers_of_segments(segs)
            }
        },
    }
}

/// Parse the required endpoint variable into a URL.
pub fn parse_endpoint(vars: &Vec<(String, String)>) -> (r: Result<url::Url, ConfigError>)
    ensures
        match spec_lookup(vars@, "LAMBDA_OTEL_RELAY_ENDPOINT"@) {
            None => r matches Err(ConfigError::EndpointMissing),
            Some(v) => {
                if v.len() == 0 {
                    r matches Err(ConfigError::EndpointMissing)
                } else if url_parse_ok(v) {
                    r is Ok
                } else {
                    r matches Err(ConfigError::EndpointInvalidUrl(u)) && u@ == v
                }
            },
        },
{
    match lookup(vars, "LAMBDA_OTEL_RELAY_ENDPOINT") {
        None => Err(ConfigError::EndpointMissing),
        Some(raw) => {
            if raw.as_str().unicode_len() == 0 {
                return Err(ConfigError::EndpointMissing);
            }
            match parse_url(raw.as_str()) {
                Some(u) => Ok(u),
                None => Err(ConfigError::EndpointInvalidUrl(raw)),
            }
        },
    }
}

/// Parse the flush-strategy variable; absent means the default strategy.
pub fn parse_flush_strategy(vars: &Vec<(String, String)>) -> (r: Result<
    FlushStrategy,
    ConfigError,
>)
    ensures
        match spec_lookup(vars@, "LAMBDA_OTEL_RELAY_FLUSH_STRATEGY"@) {
            None => r == Ok::<FlushStrategy, ConfigError>(FlushStrategy::Default),
            Some(v) => match spec_parse(v) {
                ParsedStrategy::Strategy(st) => r == Ok::<FlushStrategy, ConfigError>(st),
                _ => r matches Err(ConfigError::FlushStrategy(_)),
            },
        },
{
    match lookup(vars, "LAMBDA_OTEL_RELAY_FLUSH_STRATEGY") {
        None => Ok(FlushStrategy::Default),
        Some(raw) => {
            match FlushStrategy::parse(raw.as_str()) {
                Ok(st) => Ok(st),
                Err(e) => Err(ConfigError::FlushStrategy(e)),
            }
        },
    }
}

/// The relay's settings.
#[derive(Debug)]
pub struct Config {
    pub endpoint: url::Url,
    pub listener_port: u16,
    pub telemetry_port: u16,
    pub export_timeout_ms: u64,
    pub compression: Compression,
    pub export_headers: Vec<(String, String)>,
    pub buffer_max_bytes: Option<usize>,
    pub flush_strategy: FlushStrategy,
}

impl Config {
    /// Parse a configuration from name-value pairs. The first setting that
    /// fails to parse decides the error, in the order: endpoint, listener
    /// port, telemetry port, export timeout, compression, buffer limit,
    /// flush strategy.
    pub fn parse(vars: &Vec<(String, String)>) -> (r: Result<Config, ConfigError>)
        ensures
            ({
                let ep = spec_lookup(vars@, "LAMBDA_OTEL_RELAY_ENDPOINT"@);
                let lp = spec_lookup(vars@, "LAMBDA_OTEL_RELAY_LISTENER_PORT"@);
                let tp = spec_lookup(vars@, "LAMBDA_OTEL_RELAY_TELEMETRY_PORT"@);
                let to = spec_lookup(vars@, "LAMBDA_OTEL_RELAY_EXPORT_TIMEOUT_MS"@);
                let cp = spec_lookup(vars@, "LAMBDA_OTEL_RELAY_COMPRESSION"@);
                let bm = spec_lookup(vars@, "LAMBDA_OTEL_RELAY_BUFFER_MAX_BYTES"@);
                let fs = spec_lookup(vars@, "LAMBDA_OTEL_RELAY_FLUSH_STRATEGY"@);
                let ep_ok = ep matches Some(v) && v.len() > 0 && url_parse_ok(v);
                let lp_ok = lp is None || spec_num_ok(lp->Some_0, u16::MAX as nat);
                let tp_ok = tp is None || spec_num_ok(tp->Some_0, u16::MAX as nat);
                let to_ok = to is None || spec_num_ok(to->Some_0, u64::MAX as nat);
                let cp_ok = cp is None || cp->Some_0 == "gzip"@ || cp->Some_0 == "none"@;
                let bm_ok = bm is None || spec_num_ok(bm->Some_0, usize::MAX as nat);
                let fs_ok = fs is None || spec_parse(fs->Some_0) is Strategy;
                &&& (r is Ok <==> ep_ok && lp_ok && tp_ok && to_ok && cp_ok && bm_ok && fs_ok)
                &&& r matches Ok(c) ==> {
                    &&& c.listener_port as nat == match lp {
                        None => 4318,
                        Some(v) => spec_num_val(v),
                    }
                    &&& c.telemetry_port as nat == match tp {
                        None => 4319,
                        Some(v) => spec_num_val(v),
                    }
                    &&& c.export_timeout_ms as nat == match to {
                        None => 5000,
                        Some(v) => spec_num_val(v),
                    }
                    &&& c.compression == match cp {
                        None => Compression::Gzip,
                        Some(v) => if v == "gzip"@ {
                            Compression::Gzip
                        } else {
                            Compression::Uncompressed
                        },
                    }
                    &&& pairs_view(c.export_headers@) == match spec_lookup(
                        vars@,
                        "LAMBDA_OTEL_RELAY_EXPORT_HEADERS"@,
                    ) {
                        None => Seq::<(Seq<char>, Seq<char>)>::empty(),
                        Some(v) => if v.len() == 0 {
                            Seq::<(Seq<char>, Seq<char>)>::empty()
                        } else {
                            spec_headers(v)
                        },
                    }
                    &&& c.buffer_max_bytes matches Some(b) ==> b as nat == match bm {
                        None => DEFAULT_BUFFER_MAX_BYTES as nat,
                        Some(v) => spec_num_val(v),
                    }
                    &&& (c.buffer_max_bytes is None <==> (bm matches Some(v) && spec_num_ok(
                        v,
                        usize::MAX as nat,
                    ) && spec_num_val(v) == 0))
                    &&& c.flush_strategy == match fs {
                        None => FlushStrategy::Default,
                        Some(v) => spec_parse(v)->Strategy_0,
                    }
                }
                &&& r matches Err(e) ==> {
                    if !(ep matches Some(v) && v.len() > 0) {
                        e is EndpointMissing
                    } else if !url_parse_ok(ep->Some_0) {
                        e matches ConfigError::EndpointInvalidUrl(u) && u@ == ep->Some_0
                    } else if !lp_ok {
                        e matches ConfigError::InvalidNumeric(n, val) && n@
                            == "LAMBDA_OTEL_RELAY_LISTENER_PORT"@ && val@ == lp->Some_0
                    } else if !tp_ok {
                        e matches ConfigError::InvalidNumeric(n, val) && n@
                            == "LAMBDA_OTEL_RELAY_TELEMETRY_PORT"@ && val@ == tp->Some_0
                    } else if !to_ok {
                        e matches ConfigError::InvalidNumeric(n, val) && n@
                            == "LAMBDA_OTEL_RELAY_EXPORT_TIMEOUT_MS"@ && val@ == to->Some_0
                    } else if !cp_ok {
                        e matches ConfigError::InvalidCompression(val) && val@ == cp->Some_0
                    } else if !bm_ok {
                        e matches ConfigError::InvalidNumeric(n, val) && n@
                            == "LAMBDA_OTEL_RELAY_BUFFER_MAX_BYTES"@ && val@ == bm->Some_0
                    } else {
                        e is FlushStrategy
                    }
                }
            }),
    {
        let endpoint = match parse_endpoint(vars) {
            Ok(u) => u,
            Err(e) => {
                return Err(e);
            },
        };
        let listener_port = match parse_port(vars, "LAMBDA_OTEL_RELAY_LISTENER_PORT", 4318) {
            Ok(p) => p,
            Err(e) => {
                return Err(e);
            },
        };
        let telemetry_port = match parse_port(vars, "LAMBDA_OTEL_RELAY_TELEMETRY_PORT", 4319) {
            Ok(p) => p,
            Err(e) => {
                return Err(e);
            },
        };
        let export_timeout_ms = match parse_duration_ms(
            vars,
            "LAMBDA_OTEL_RELAY_EXPORT_TIMEOUT_MS",
            5000,
        ) {
            Ok(ms) => ms,
            Err(e) => {
                return Err(e);
            },
        };
        let compression = match parse_compression(vars) {
            Ok(c) => c,
            Err(e) => {
                return Err(e);
            },
        };
        let export_headers = parse_headers(vars);
        let buffer_max_bytes = match parse_buffer_max_bytes(
            vars,
            "LAMBDA_OTEL_RELAY_BUFFER_MAX_BYTES",
        ) {
            Ok(b) => b,
            Err(e) => {
                return Err(e);
            },
        };
        let flush_strategy = match parse_flush_strategy(vars) {
            Ok(st) => st,
            Err(e) => {
                return Err(e);
            },
        };
        Ok(
            Config {
                endpoint,
                listener_port,
                telemetry_port,
                export_timeout_ms,
                compression,
                export_headers,
                buffer_max_bytes,
                flush_strategy,
            },
        )
    }
}

impl ConfigError {
    /// The error's text form.
    pub open spec fn spec_message(&self) -> Seq<char> {
        match self {
            ConfigError::EndpointMissing => "LAMBDA_OTEL_RELAY_ENDPOINT is required but not set"@,
            ConfigError::EndpointInvalidUrl(s) => "LAMBDA_OTEL_RELAY_ENDPOINT is not a valid URL: "@
                + s@,
            ConfigError::InvalidNumeric(n, v) => n@ + " has invalid value: "@ + v@,
            ConfigError::InvalidCompression(v) => "LAMBDA_OTEL_RELAY_COMPRESSION has invalid value: "@
                + v@ + " (expected \"gzip\" or \"none\")"@,
            ConfigError::FlushStrategy(e) => e.spec_message(),
        }
    }

    /// The error rendered as one line of text.
    pub fn to_string(&self) -> (r: String)
        ensures
            r@ == self.spec_message(),
    {
        match self {
            ConfigError::EndpointMissing => "LAMBDA_OTEL_RELAY_ENDPOINT is required but not set"
                .to_owned(),
            ConfigError::EndpointInvalidUrl(s) => "LAMBDA_OTEL_RELAY_ENDPOINT is not a valid URL: "
                .to_owned().concat(s.as_str()),
            ConfigError::InvalidNumeric(n, v) => n.clone().concat(" has invalid value: ").concat(
                v.as_str(),
            ),
            ConfigError::InvalidCompression(v) => "LAMBDA_OTEL_RELAY_COMPRESSION has invalid value: "
                .to_owned().concat(v.as_str()).concat(" (expected \"gzip\" or \"none\")"),
            ConfigError::FlushStrategy(e) => e.to_string(),
        }
    }
}

} // verus!
