//! The node's settings, read from its command-line arguments: the data
//! directory first, then flags in any order.

use vstd::prelude::*;
use vstd::string::StrSliceExecFns;
use crate::codec::{copy_string, str_eq};

verus! {

broadcast use vstd::seq::group_seq_axioms;

#[derive(Debug)]
pub struct NodeConfig {
    pub data_dir: String,
    pub port: u16,
    pub explorer_port: u16,
    pub bootstrap_peers: Vec<String>,
    pub log_format: String,
    pub log_dir: Option<String>,
}

/// The value of a run of decimal digits.
pub open spec fn digits_value(s: Seq<char>) -> int
    decreases s.len(),
{
    if s.len() == 0 {
        0
    } else {
        digits_value(s.drop_last()) * 10 + (s.last() as int - '0' as int)
    }
}

/// Every character is a decimal digit.
pub open spec fn all_digits(s: Seq<char>) -> bool {
    forall|i: int| 0 <= i < s.len() ==> '0' <= #[trigger] s[i] <= '9'
}

/// An unsigned number as Rust reads one: an optional `+`, then at least one
/// digit, and a value no greater than `max`.
pub open spec fn parse_unsigned(s: Seq<char>, max: int) -> Option<int> {
    let d = if s.len() > 0 && s[0] == '+' {
        s.drop_first()
    } else {
        s
    };
    if d.len() > 0 && all_digits(d) && digits_value(d) <= max {
        Some(digits_value(d))
    } else {
        None
    }
}

proof fn lemma_digits_value_nonneg(s: Seq<char>)
    requires
        all_digits(s),
    ensures
        digits_value(s) >= 0,
    decreases s.len(),
{
    if s.len() > 0 {
        lemma_digits_value_nonneg(s.drop_last());
    }
}

/// Reads a `u64` as `str::parse` does.
pub fn parse_u64(s: &str) -> (r: Option<u64>)
    ensures
        match parse_unsigned(s@, u64::MAX as int) {
            Some(v) => r matches Some(x) && x as int == v,
            None => r is None,
        },
{
    let n = s.unicode_len();
    let mut start: usize = 0;
    if n > 0 && s.get_char(0) == '+' {
        start = 1;
    }
    let ghost d = if s@.len() > 0 && s@[0] == '+' {
        s@.drop_first()
    } else {
        s@
    };
    assert(d =~= s@.skip(start as int));
    if start >= n {
        assert(d.len() == 0);
        return None;
    }
    let mut value: u128 = 0;
    let mut i = start;
    while i < n
        invariant
            start <= i <= n,
            n == s@.len(),
            d == s@.skip(start as int),
            d == (if s@.len() > 0 && s@[0] == '+' {
                s@.drop_first()
            } else {
                s@
            }),
            d.len() == n - start,
            forall|j: int| 0 <= j < i - start ==> '0' <= #[trigger] d[j] <= '9',
            value == digits_value(d.take(i - start)),
            value <= u64::MAX,
        decreases n - i,
    {
        let c = s.get_char(i);
        let ghost k = i - start;
        assert(d[k] == c);
        if c < '0' || c > '9' {
            assert(!all_digits(d));
            return None;
        }
        proof {
            assert(d.take(k + 1).drop_last() =~= d.take(k));
            assert(d.take(k + 1).last() == c);
        }
        let digit = (c as u128) - ('0' as u128);
        let next = value * 10 + digit;
        assert(next == digits_value(d.take(k + 1)));
        if next > u64::MAX as u128 {
            proof {
                lemma_digits_value_prefix_grows(d, k + 1);
            }
            return None;
        }
        value = next;
        i = i + 1;
    }
    assert(d.take(n - start) =~= d);
    assert(all_digits(d));
    proof {
        lemma_digits_value_nonneg(d);
    }
    Some(value as u64)
}

/// Reads a `u16` as `str::parse` does.
pub fn parse_u16(s: &str) -> (r: Option<u16>)
    ensures
        match parse_unsigned(s@, u16::MAX as int) {
            Some(v) => r matches Some(x) && x as int == v,
            None => r is None,
        },
{
    let r64 = parse_u64(s);
    proof {
        let d = if s@.len() > 0 && s@[0] == '+' {
            s@.drop_first()
        } else {
            s@
        };
        if d.len() > 0 && all_digits(d) {
            lemma_digits_value_nonneg(d);
        }
    }
    match r64 {
        Some(v) => if v <= u16::MAX as u64 {
            Some(v as u16)
        } else {
            None
        },
        None => None,
    }
}

/// A longer run of digits is worth at least as much as a prefix of it.
proof fn lemma_digits_value_prefix_grows(d: Seq<char>, k: int)
    requires
        0 <= k <= d.len(),
    ensures
        all_digits(d) ==> digits_value(d.take(k)) <= digits_value(d),
    decreases d.len() - k,
{
    if k < d.len() && all_digits(d) {
        lemma_digits_value_prefix_grows(d, k + 1);
        assert(d.take(k + 1).drop_last() =~= d.take(k));
        assert(all_digits(d.take(k))) by {
            assert forall|i: int| 0 <= i < d.take(k).len() implies '0' <= #[trigger] d.take(k)[i] <= '9' by {
                assert(d.take(k)[i] == d[i]);
            }
        }
        lemma_digits_value_nonneg(d.take(k));
    } else if k == d.len() {
        assert(d.take(k) =~= d);
    }
}

/// The settings gathered from the flags so far.
pub struct FlagsView {
    pub port: u16,
    pub explorer_port: u16,
    pub peers: Seq<Seq<char>>,
    pub log_format: Seq<char>,
    pub log_dir: Option<Seq<char>>,
    pub no_default_peer: bool,
}

/// The settings before any flag.
pub open spec fn initial_flags() -> FlagsView {
    FlagsView {
        port: 0,
        explorer_port: 3000,
        peers: Seq::empty(),
        log_format: "pretty"@,
        log_dir: None,
        no_default_peer: false,
    }
}

/// The flags read from position `i` on: `--port`/`-p`, `--explorer-port`/
/// `-e`, `--peer`, `--log-format` and `--log-dir` take the next argument
/// (a port that does not read as one becomes 0, or 3000 for the explorer);
/// `--no-default-peer` stands alone; a flag missing its value, and anything
/// else, is skipped.
pub open spec fn flags_from(args: Seq<Seq<char>>, i: int, f: FlagsView) -> FlagsView
    decreases args.len() - i,
{
    if i < 0 || i >= args.len() {
        f
    } else {
        let a = args[i];
        let has_value = i + 1 < args.len();
        if a == "--port"@ || a == "-p"@ {
            if has_value {
                let port = match parse_unsigned(args[i + 1], u16::MAX as int) {
                    Some(v) => v as u16,
                    None => 0,
                };
                flags_from(args, i + 2, FlagsView { port, ..f })
            } else {
                flags_from(args, i + 1, f)
            }
        } else if a == "--explorer-port"@ || a == "-e"@ {
            if has_value {
                let explorer_port = match parse_unsigned(args[i + 1], u16::MAX as int) {
                    Some(v) => v as u16,
                    None => 3000,
                };
                flags_from(args, i + 2, FlagsView { explorer_port, ..f })
            } else {
                flags_from(args, i + 1, f)
            }
        } else if a == "--peer"@ {
            if has_value {
                flags_from(args, i + 2, FlagsView { peers: f.peers.push(args[i + 1]), ..f })
            } else {
                flags_from(args, i + 1, f)
            }
        } else if a == "--no-default-peer"@ {
            flags_from(args, i + 1, FlagsView { no_default_peer: true, ..f })
        } else if a == "--log-format"@ {
            if has_value {
                flags_from(args, i + 2, FlagsView { log_format: args[i + 1], ..f })
            } else {
                flags_from(args, i + 1, f)
            }
        } else if a == "--log-dir"@ {
            if has_value {
                flags_from(args, i + 2, FlagsView { log_dir: Some(args[i + 1]), ..f })
            } else {
                flags_from(args, i + 1, f)
            }
        } else {
            flags_from(args, i + 1, f)
        }
    }
}

/// The texts of a run of strings.
pub open spec fn texts(s: Seq<String>) -> Seq<Seq<char>> {
    s.map_values(|x: String| x@)
}

/// The text of an optional string.
pub open spec fn opt_text(o: Option<String>) -> Option<Seq<char>> {
    match o {
        Some(s) => Some(s@),
        None => None,
    }
}

impl NodeConfig {
    /// The settings that the arguments give; `args[0]` is the program.
    pub fn from_args(args: Vec<String>) -> (r: NodeConfig)
        ensures
            ({
                let a = texts(args@);
                let f = flags_from(a, 2, initial_flags());
                &&& r.data_dir@ == if a.len() > 1 {
                    a[1]
                } else {
                    "austro_node_default"@
                }
                &&& r.port == f.port
                &&& r.explorer_port == f.explorer_port
                // Without peers given, the public bootstrap node is dialled.
                &&& texts(r.bootstrap_peers@) == if f.peers.len() == 0 && !f.no_default_peer {
                    seq!["/ip4/147.224.133.52/tcp/4001"@]
                } else {
                    f.peers
                }
                &&& r.log_format@ == f.log_format
                &&& opt_text(r.log_dir) == f.log_dir
            }),
    {
        let ghost a = texts(args@);
        let data_dir = if args.len() > 1 {
            copy_string(&args[1])
        } else {
            "austro_node_default".to_string()
        };
        let mut port: u16 = 0;
        let mut explorer_port: u16 = 3000;
        let mut bootstrap_peers: Vec<String> = Vec::new();
        let mut log_format: String = "pretty".to_string();
        let mut log_dir: Option<String> = None;
        let mut no_default_peer: bool = false;
        assert(texts(bootstrap_peers@) =~= Seq::<Seq<char>>::empty());
        assert((FlagsView {
            port,
            explorer_port,
            peers: texts(bootstrap_peers@),
            log_format: log_format@,
            log_dir: opt_text(log_dir),
            no_default_peer,
        }) == initial_flags());
        let n = args.len();
        let mut i: usize = 2;
        while i < n
            invariant
                n == args@.len(),
                a == texts(args@),
                i >= 2,
                flags_from(a, i as int, FlagsView {
                    port,
                    explorer_port,
                    peers: texts(bootstrap_peers@),
                    log_format: log_format@,
                    log_dir: opt_text(log_dir),
                    no_default_peer,
                }) == flags_from(a, 2, initial_flags()),
            decreases n - i,
        {
            let arg = args[i].as_str();
            assert(a[i as int] == arg@);
            let has_value = i + 1 < n;
            if has_value {
                assert(a[i + 1] == args@[i + 1]@);
            }
            if str_eq(arg, "--port") || str_eq(arg, "-p") {
                if has_value {
                    port = match parse_u16(args[i + 1].as_str()) {
                        Some(v) => v,
                        None => 0,
                    };
                    i = i + 2;
                } else {
                    i = i + 1;
                }
            } else if str_eq(arg, "--explorer-port") || str_eq(arg, "-e") {
                if has_value {
                    explorer_port = match parse_u16(args[i + 1].as_str()) {
                        Some(v) => v,
                        None => 3000,
                    };
                    i = i + 2;
                } else {
                    i = i + 1;
                }
            } else if str_eq(arg, "--peer") {
                if has_value {
                    let ghost before = texts(bootstrap_peers@);
                    bootstrap_peers.push(copy_string(&args[i + 1]));
                    assert(texts(bootstrap_peers@) =~= before.push(a[i + 1]));
                    i = i + 2;
                } else {
                    i = i + 1;
                }
            } else if str_eq(arg, "--no-default-peer") {
                no_default_peer = true;
                i = i + 1;
            } else if str_eq(arg, "--log-format") {
                if has_value {
                    log_format = copy_string(&args[i + 1]);
                    i = i + 2;
                } else {
                    i = i + 1;
                }
            } else if str_eq(arg, "--log-dir") {
                if has_value {
                    log_dir = Some(copy_string(&args[i + 1]));
                    i = i + 2;
                } else {
                    i = i + 1;
                }
            } else {
                i = i + 1;
            }
        }
        if bootstrap_peers.len() == 0 && !no_default_peer {
            bootstrap_peers.push("/ip4/147.224.133.52/tcp/4001".to_string());
            assert(texts(bootstrap_peers@) =~= seq!["/ip4/147.224.133.52/tcp/4001"@]);
        }
        NodeConfig { data_dir, port, explorer_port, bootstrap_peers, log_format, log_dir }
    }
}

} // verus!
