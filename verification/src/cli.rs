//! The command line: flags, what a command is asked to do, and where to serve.

use crate::number;
use crate::text;
use vstd::prelude::*;

verus! {

broadcast use vstd::string::group_string_axioms;

// ---------------------------------------------------------------------------
// Flags
// ---------------------------------------------------------------------------

/// The value of a flag and the other arguments. The value is the argument behind
/// the flag; where the flag is given more than once, the last counts. A flag at
/// the very end has no value and is an argument as any other.
pub open spec fn flag(args: Seq<Seq<char>>, name: Seq<char>, value: Seq<char>) -> (
    Seq<char>,
    Seq<Seq<char>>,
)
    decreases args.len(),
{
    if args.len() == 0 {
        (value, Seq::empty())
    } else if args[0] == name && args.len() >= 2 {
        flag(args.skip(2), name, args[1])
    } else {
        let (v, rest) = flag(args.skip(1), name, value);
        (v, seq![args[0]] + rest)
    }
}

/// Without the flag its value is the default, and the arguments are all there.
pub proof fn lemma_flag_absent(args: Seq<Seq<char>>, name: Seq<char>, default: Seq<char>)
    requires
        !args.contains(name),
    ensures
        flag(args, name, default) == (default, args),
    decreases args.len(),
{
    if args.len() > 0 {
        assert(args[0] != name);
        assert forall|i: int| 0 <= i < args.skip(1).len() implies args.skip(1)[i] != name by {
            assert(args.skip(1)[i] == args[i + 1]);
        }
        lemma_flag_absent(args.skip(1), name, default);
        assert(seq![args[0]] + args.skip(1) =~= args);
    } else {
        assert(args =~= Seq::<Seq<char>>::empty());
    }
}

/// A flag that is given once has the value behind it, wherever it stands, and the
/// other arguments keep their order.
pub proof fn lemma_flag_given(
    before: Seq<Seq<char>>,
    name: Seq<char>,
    value: Seq<char>,
    after: Seq<Seq<char>>,
    default: Seq<char>,
)
    requires
        !before.contains(name),
        !after.contains(name),
    ensures
        flag(before + seq![name, value] + after, name, default) == (value, before + after),
    decreases before.len(),
{
    let args = before + seq![name, value] + after;
    if before.len() > 0 {
        let tail = before.skip(1);
        assert forall|i: int| 0 <= i < tail.len() implies tail[i] != name by {
            assert(tail[i] == before[i + 1]);
        }
        assert(before[0] != name);
        lemma_flag_given(tail, name, value, after, default);
        assert(args.skip(1) =~= tail + seq![name, value] + after);
        assert(seq![before[0]] + (tail + after) =~= before + after);
    } else {
        assert(args.skip(2) =~= after);
        lemma_flag_absent(after, name, value);
        assert(before + after =~= after);
    }
}

/// The flag is given with a value.
pub open spec fn flag_given(args: Seq<Seq<char>>, name: Seq<char>) -> bool
    decreases args.len(),
{
    args.len() >= 2 && (args[0] == name || flag_given(args.skip(1), name))
}

/// The default of a flag that is given plays no part.
pub proof fn lemma_given_flag_ignores_default(
    args: Seq<Seq<char>>,
    name: Seq<char>,
    a: Seq<char>,
    b: Seq<char>,
)
    requires
        flag_given(args, name),
    ensures
        flag(args, name, a) == flag(args, name, b),
    decreases args.len(),
{
    if args[0] != name {
        lemma_given_flag_ignores_default(args.skip(1), name, a, b);
    }
}

/// Pull out a `--flag value` pair, returning the value and the remaining args.
pub fn take_flag(args: &[String], name: &str, default: &str) -> (r: (String, Vec<String>))
    ensures
        (r.0@, text::strs(r.1@)) == flag(text::strs(args@), name@, default@),
{
    let ghost all = text::strs(args@);
    let mut out: String = default.to_owned();
    let mut rest: Vec<String> = Vec::new();
    let mut i: usize = 0;
    assert(all.skip(0) =~= all);
    assert(text::strs(rest@) + flag(all, name@, default@).1 =~= flag(all, name@, default@).1);
    while i < args.len()
        invariant
            i <= args@.len(),
            all == text::strs(args@),
            flag(all, name@, default@) == (
                flag(all.skip(i as int), name@, out@).0,
                text::strs(rest@) + flag(all.skip(i as int), name@, out@).1,
            ),
        decreases args.len() - i,
    {
        let ghost here = all.skip(i as int);
        let ghost before = text::strs(rest@);
        proof {
            assert(here[0] == args@[i as int]@);
            if here.len() >= 2 {
                assert(here[1] == args@[i + 1]@);
                assert(here.skip(2) =~= all.skip(i + 2));
            }
            assert(here.skip(1) =~= all.skip(i + 1));
        }
        if text::same_str(args[i].as_str(), name) && args.len() - i >= 2 {
            out = args[i + 1].clone();
            i = i + 2;
        } else {
            rest.push(args[i].clone());
            proof {
                let more = flag(here.skip(1), name@, out@).1;
                assert(text::strs(rest@) =~= before.push(here[0]));
                assert(text::strs(rest@) + more =~= before + (seq![here[0]] + more));
            }
            i = i + 1;
        }
    }
    assert(text::strs(rest@) + Seq::<Seq<char>>::empty() =~= text::strs(rest@));
    (out, rest)
}

/// What the arguments ask for before any command is looked at.
#[derive(Debug, Clone, Copy, PartialEq, Eq, Structural)]
pub enum Mode {
    Version,
    Help,
    Command,
}

/// The version where it is asked for anywhere, else help where that is, else a
/// command.
pub open spec fn mode_of(args: Seq<Seq<char>>) -> Mode {
    if args.contains("--version"@) || args.contains("-V"@) {
        Mode::Version
    } else if args.contains("--help"@) || args.contains("-h"@) {
        Mode::Help
    } else {
        Mode::Command
    }
}

/// Whether an argument is given.
fn given(args: &[String], name: &str) -> (r: bool)
    ensures
        r == text::strs(args@).contains(name@),
{
    let ghost all = text::strs(args@);
    for i in 0..args.len()
        invariant
            all == text::strs(args@),
            forall|k: int| 0 <= k < i ==> #[trigger] all[k] != name@,
    {
        assert(all[i as int] == args@[i as int]@);
        if text::same_str(args[i].as_str(), name) {
            return true;
        }
    }
    false
}

/// What the arguments ask for before any command is looked at.
pub fn mode(args: &[String]) -> (r: Mode)
    ensures
        r == mode_of(text::strs(args@)),
{
    if given(args, "--version") || given(args, "-V") {
        Mode::Version
    } else if given(args, "--help") || given(args, "-h") {
        Mode::Help
    } else {
        Mode::Command
    }
}

// ---------------------------------------------------------------------------
// Values
// ---------------------------------------------------------------------------

/// A limit: none where the text is empty.
pub open spec fn limit_of(s: Seq<char>) -> Option<Option<nat>> {
    if s.len() == 0 {
        Some(None)
    } else {
        match number::unsigned(s, 10, usize::MAX as nat) {
            Some(n) => Some(Some(n)),
            None => None,
        }
    }
}

/// Reads a limit; fails with a message where the text is no number.
pub fn read_limit(s: &str) -> (r: Result<Option<usize>, String>)
    ensures
        match r {
            Ok(None) => limit_of(s@) == Some(None::<nat>),
            Ok(Some(n)) => limit_of(s@) == Some(Some(n as nat)),
            Err(m) => limit_of(s@) is None && m@ == "invalid limit: "@ + s@,
        },
{
    if s.is_empty() {
        return Ok(None);
    }
    match number::parse_usize(s) {
        Some(n) => Ok(Some(n)),
        None => {
            let mut out: Vec<char> = text::chars_of("invalid limit: ");
            text::append_str(&mut out, s);
            Err(text::string_of(out.as_slice()))
        },
    }
}

/// Reads the number of results; 10 where the text is no number.
pub fn read_k(s: &str) -> (r: usize)
    ensures
        r as nat == (match number::unsigned(s@, 10, usize::MAX as nat) {
            Some(n) => n,
            None => 10,
        }),
{
    match number::parse_usize(s) {
        Some(n) => n,
        None => 10,
    }
}

/// The text where it is not empty.
pub fn nonempty(s: String) -> (r: Option<String>)
    ensures
        text::opt_str(r) == (if s@.len() == 0 {
            None
        } else {
            Some(s@)
        }),
{
    if s.as_str().is_empty() {
        None
    } else {
        Some(s)
    }
}

/// A JSON array of items that are JSON texts.
pub fn json_array(items: &Vec<String>) -> (r: String)
    ensures
        r@ == "["@ + text::joined(text::strs(items@), ","@) + "]"@,
{
    let mut out: Vec<char> = text::chars_of("[");
    text::append_str(&mut out, text::join(items, ",").as_str());
    text::append_str(&mut out, "]");
    text::string_of(out.as_slice())
}

// ---------------------------------------------------------------------------
// Serving
// ---------------------------------------------------------------------------

/// Where to serve: the host and the port.
pub struct Address {
    pub host: String,
    pub port: u16,
}

/// The host and the text of the port. Where the environment names a port, all
/// interfaces are served at it; explicit flags always win.
pub open spec fn serve_texts(args: Seq<Seq<char>>, env_port: Option<Seq<char>>) -> (
    Seq<char>,
    Seq<char>,
) {
    let (host, rest) = flag(
        args,
        "--host"@,
        if env_port is Some {
            "0.0.0.0"@
        } else {
            "127.0.0.1"@
        },
    );
    let (port, _) = flag(
        rest,
        "--port"@,
        match env_port {
            Some(p) => p,
            None => "8080"@,
        },
    );
    (host, port)
}

/// Where to serve; fails with a message where the port is no 16-bit number.
pub fn serve_address(args: &[String], env_port: Option<&str>) -> (r: Result<Address, String>)
    ensures
        ({
            let (host, port) = serve_texts(
                text::strs(args@),
                match env_port {
                    Some(p) => Some(p@),
                    None => None,
                },
            );
            match r {
                Ok(a) => a.host@ == host && number::unsigned(port, 10, 65535) == Some(
                    a.port as nat,
                ),
                Err(m) => number::unsigned(port, 10, 65535) is None && m@ == "invalid port: "@
                    + port,
            }
        }),
{
    let default_host = if env_port.is_some() {
        "0.0.0.0"
    } else {
        "127.0.0.1"
    };
    let (host, rest) = take_flag(args, "--host", default_host);
    let default_port = match env_port {
        Some(p) => p,
        None => "8080",
    };
    let (port, _) = take_flag(rest.as_slice(), "--port", default_port);
    let digits = text::chars_of(port.as_str());
    match number::parse_unsigned(digits.as_slice(), 10, 65535) {
        Some(n) => Ok(Address { host, port: n as u16 }),
        None => {
            let mut out: Vec<char> = text::chars_of("invalid port: ");
            text::append_str(&mut out, port.as_str());
            Err(text::string_of(out.as_slice()))
        },
    }
}

/// Explicit flags win over the environment: where both are given, the host and
/// the port do not depend on it.
pub proof fn lemma_flags_win(
    args: Seq<Seq<char>>,
    a: Option<Seq<char>>,
    b: Option<Seq<char>>,
    any: Seq<char>,
)
    requires
        flag_given(args, "--host"@),
        flag_given(flag(args, "--host"@, any).1, "--port"@),
    ensures
        serve_texts(args, a) == serve_texts(args, b),
{
    lemma_given_flag_ignores_default(args, "--host"@, any, "0.0.0.0"@);
    lemma_given_flag_ignores_default(args, "--host"@, any, "127.0.0.1"@);
    let rest = flag(args, "--host"@, any).1;
    let p = match a {
        Some(p) => p,
        None => "8080"@,
    };
    let q = match b {
        Some(q) => q,
        None => "8080"@,
    };
    lemma_given_flag_ignores_default(rest, "--port"@, p, q);
}

// ---------------------------------------------------------------------------
// Collecting
// ---------------------------------------------------------------------------

/// What to collect.
#[derive(Debug, Clone, Copy)]
pub enum Job {
    GooglePlay,
    AppleSupport,
    /// A page of the English Wikipedia with tables of devices.
    Wikipedia { page: &'static str, brand: &'static str, kind: &'static str },
    Tenaa,
    HuaweiModels,
}

/// What to collect from a source; None where the source is not known.
pub open spec fn job_of(source: Seq<char>) -> Option<JobView> {
    if source == "google-play"@ {
        Some(JobView::GooglePlay)
    } else if source == "apple"@ {
        Some(JobView::AppleSupport)
    } else if source == "apple-all"@ {
        Some(
            JobView::Wikipedia {
                page: "List_of_iPhone_models"@,
                brand: "Apple"@,
                kind: "apple-columns"@,
            },
        )
    } else if source == "wikipedia-apple"@ {
        Some(
            JobView::Wikipedia {
                page: "List_of_iPhone_models"@,
                brand: "Apple"@,
                kind: "apple"@,
            },
        )
    } else if source == "wikipedia-huawei"@ {
        Some(
            JobView::Wikipedia {
                page: "List_of_Huawei_products"@,
                brand: "Huawei"@,
                kind: "huawei"@,
            },
        )
    } else if source == "wikipedia-honor"@ {
        Some(
            JobView::Wikipedia {
                page: "List_of_Honor_phones"@,
                brand: "Honor"@,
                kind: "huawei"@,
            },
        )
    } else if source == "wikipedia-huawei-models"@ {
        Some(JobView::HuaweiModels)
    } else if source == "tenaa"@ {
        Some(JobView::Tenaa)
    } else {
        None
    }
}

/// The contents of a job.
pub enum JobView {
    GooglePlay,
    AppleSupport,
    Wikipedia { page: Seq<char>, brand: Seq<char>, kind: Seq<char> },
    Tenaa,
    HuaweiModels,
}

impl View for Job {
    type V = JobView;

    open spec fn view(&self) -> JobView {
        match *self {
            Job::GooglePlay => JobView::GooglePlay,
            Job::AppleSupport => JobView::AppleSupport,
            Job::Wikipedia { page, brand, kind } => JobView::Wikipedia {
                page: page@,
                brand: brand@,
                kind: kind@,
            },
            Job::Tenaa => JobView::Tenaa,
            Job::HuaweiModels => JobView::HuaweiModels,
        }
    }
}

/// What to collect from a source; fails with a message where the source is not
/// known.
pub fn job(source: &str) -> (r: Result<Job, String>)
    ensures
        match r {
            Ok(j) => job_of(source@) == Some(j@),
            Err(m) => job_of(source@) is None && m@ == "unknown source `"@ + source@
                + "` (available: google-play, apple, apple-all, wikipedia-apple, wikipedia-huawei, wikipedia-huawei-models, wikipedia-honor, tenaa)"@,
        },
{
    if text::same_str(source, "google-play") {
        Ok(Job::GooglePlay)
    } else if text::same_str(source, "apple") {
        Ok(Job::AppleSupport)
    } else if text::same_str(source, "apple-all") {
        Ok(
            Job::Wikipedia {
                page: "List_of_iPhone_models",
                brand: "Apple",
                kind: "apple-columns",
            },
        )
    } else if text::same_str(source, "wikipedia-apple") {
        Ok(Job::Wikipedia { page: "List_of_iPhone_models", brand: "Apple", kind: "apple" })
    } else if text::same_str(source, "wikipedia-huawei") {
        Ok(Job::Wikipedia { page: "List_of_Huawei_products", brand: "Huawei", kind: "huawei" })
    } else if text::same_str(source, "wikipedia-honor") {
        Ok(Job::Wikipedia { page: "List_of_Honor_phones", brand: "Honor", kind: "huawei" })
    } else if text::same_str(source, "wikipedia-huawei-models") {
        Ok(Job::HuaweiModels)
    } else if text::same_str(source, "tenaa") {
        Ok(Job::Tenaa)
    } else {
        let mut out: Vec<char> = text::chars_of("unknown source `");
        text::append_str(&mut out, source);
        text::append_str(
            &mut out,
            "` (available: google-play, apple, apple-all, wikipedia-apple, wikipedia-huawei, wikipedia-huawei-models, wikipedia-honor, tenaa)",
        );
        Err(text::string_of(out.as_slice()))
    }
}

/// The name of the file that a source is collected in.
pub fn collected_file(source: &str) -> (r: String)
    ensures
        r@ == source@ + ".json"@,
{
    let mut out: Vec<char> = text::chars_of(source);
    text::append_str(&mut out, ".json");
    text::string_of(out.as_slice())
}

// ---------------------------------------------------------------------------
// What the arguments say
// ---------------------------------------------------------------------------

/// Where a flag is given twice, the last value counts and both pairs are taken out.
pub proof fn lemma_last_flag_counts(
    before: Seq<Seq<char>>,
    name: Seq<char>,
    first: Seq<char>,
    between: Seq<Seq<char>>,
    last: Seq<char>,
    after: Seq<Seq<char>>,
    default: Seq<char>,
)
    requires
        !before.contains(name),
        !between.contains(name),
        !after.contains(name),
    ensures
        flag(
            before + seq![name, first] + between + seq![name, last] + after,
            name,
            default,
        ) == (last, before + between + after),
    decreases before.len(),
{
    let args = before + seq![name, first] + between + seq![name, last] + after;
    if before.len() > 0 {
        let tail = before.skip(1);
        assert forall|i: int| 0 <= i < tail.len() implies tail[i] != name by {
            assert(tail[i] == before[i + 1]);
        }
        assert(before[0] != name);
        lemma_last_flag_counts(tail, name, first, between, last, after, default);
        assert(args.skip(1) =~= tail + seq![name, first] + between + seq![name, last] + after);
        assert(seq![before[0]] + (tail + between + after) =~= before + between + after);
    } else {
        assert(args.skip(2) =~= between + seq![name, last] + after);
        lemma_flag_given(between, name, last, after, first);
        assert(before + between + after =~= between + after);
    }
}

/// A flag at the very end has no value: it is an argument as any other.
pub proof fn lemma_flag_without_value(
    before: Seq<Seq<char>>,
    name: Seq<char>,
    default: Seq<char>,
)
    requires
        !before.contains(name),
    ensures
        flag(before.push(name), name, default) == (default, before.push(name)),
    decreases before.len(),
{
    let args = before.push(name);
    if before.len() > 0 {
        let tail = before.skip(1);
        assert forall|i: int| 0 <= i < tail.len() implies tail[i] != name by {
            assert(tail[i] == before[i + 1]);
        }
        assert(before[0] != name);
        lemma_flag_without_value(tail, name, default);
        assert(args.skip(1) =~= tail.push(name));
        assert(seq![before[0]] + tail.push(name) =~= args);
    } else {
        assert(args.skip(1) =~= Seq::<Seq<char>>::empty());
        assert(flag(args.skip(1), name, default) == (default, Seq::<Seq<char>>::empty()));
        assert(seq![args[0]] + Seq::<Seq<char>>::empty() =~= args);
    }
}

/// One argument is enough to ask for the version, and one for help where none asks
/// for the version; a command is looked at only where there is neither.
pub proof fn lemma_mode(args: Seq<Seq<char>>, i: int)
    requires
        0 <= i < args.len(),
    ensures
        args[i] == "--version"@ || args[i] == "-V"@ ==> mode_of(args) == Mode::Version,
        args[i] == "--help"@ || args[i] == "-h"@ ==> mode_of(args) != Mode::Command,
        (forall|k: int|
            0 <= k < args.len() ==> #[trigger] args[k] != "--version"@ && args[k] != "-V"@)
            ==> mode_of(args) != Mode::Version,
        (forall|k: int|
            0 <= k < args.len() ==> #[trigger] args[k] != "--help"@ && args[k] != "-h"@)
            ==> mode_of(args) != Mode::Help,
{
    assert(args.contains(args[i]));
}

/// A limit is read as it is written, and no text is no limit.
pub proof fn lemma_limit(n: nat)
    requires
        n <= usize::MAX,
    ensures
        limit_of(number::decimal(n)) == Some(Some(n)),
        limit_of(Seq::empty()) == Some(None::<nat>),
{
    number::lemma_decimal_reads_back(n, usize::MAX as nat);
    assert(number::unsigned(number::decimal(n), 10, usize::MAX as nat) == Some(n));
}

/// Without flags the server listens at 127.0.0.1 and port 8080; where the environment
/// names a port, at that port on all interfaces.
pub proof fn lemma_serve_without_flags(args: Seq<Seq<char>>, port: Seq<char>)
    requires
        !args.contains("--host"@),
        !args.contains("--port"@),
    ensures
        serve_texts(args, None) == ("127.0.0.1"@, "8080"@),
        serve_texts(args, Some(port)) == ("0.0.0.0"@, port),
{
    lemma_flag_absent(args, "--host"@, "127.0.0.1"@);
    lemma_flag_absent(args, "--host"@, "0.0.0.0"@);
    lemma_flag_absent(args, "--port"@, "8080"@);
    lemma_flag_absent(args, "--port"@, port);
}

/// A host that is given is served, whatever the environment says, and leaves the port
/// alone.
pub proof fn lemma_serve_host(
    before: Seq<Seq<char>>,
    host: Seq<char>,
    after: Seq<Seq<char>>,
    env_port: Option<Seq<char>>,
)
    requires
        !before.contains("--host"@),
        !after.contains("--host"@),
        !before.contains("--port"@),
        !after.contains("--port"@),
    ensures
        serve_texts(before + seq!["--host"@, host] + after, env_port) == (
            host,
            (match env_port {
                Some(p) => p,
                None => "8080"@,
            }),
        ),
{
    lemma_flag_given(before, "--host"@, host, after, "0.0.0.0"@);
    lemma_flag_given(before, "--host"@, host, after, "127.0.0.1"@);
    let rest = before + after;
    assert forall|i: int| 0 <= i < rest.len() implies rest[i] != "--port"@ by {
        if i < before.len() {
            assert(rest[i] == before[i]);
        } else {
            assert(rest[i] == after[i - before.len()]);
        }
    }
    lemma_flag_absent(
        rest,
        "--port"@,
        match env_port {
            Some(p) => p,
            None => "8080"@,
        },
    );
}

/// A port that is given is served, whatever the environment says, and leaves the host
/// alone.
pub proof fn lemma_serve_port(
    before: Seq<Seq<char>>,
    port: Seq<char>,
    after: Seq<Seq<char>>,
    env_port: Option<Seq<char>>,
)
    requires
        !before.contains("--host"@),
        !after.contains("--host"@),
        !before.contains("--port"@),
        !after.contains("--port"@),
        port != "--host"@,
    ensures
        serve_texts(before + seq!["--port"@, port] + after, env_port) == (
            (if env_port is Some {
                "0.0.0.0"@
            } else {
                "127.0.0.1"@
            }),
            port,
        ),
{
    reveal_strlit("--host");
    reveal_strlit("--port");
    let args = before + seq!["--port"@, port] + after;
    assert("--host"@[2] == 'h' && "--port"@[2] == 'p');
    assert forall|i: int| 0 <= i < args.len() implies args[i] != "--host"@ by {
        if i < before.len() {
            assert(args[i] == before[i]);
        } else if i >= before.len() + 2 {
            assert(args[i] == after[i - before.len() - 2]);
        }
    }
    let host = if env_port is Some {
        "0.0.0.0"@
    } else {
        "127.0.0.1"@
    };
    lemma_flag_absent(args, "--host"@, host);
    lemma_flag_given(
        before,
        "--port"@,
        port,
        after,
        match env_port {
            Some(p) => p,
            None => "8080"@,
        },
    );
}

/// The pages of Wikipedia that are read: both sources of iPhones read the same page,
/// by columns and by rows, and each other source has a page of its own.
pub proof fn lemma_pages_read(source: Seq<char>)
    ensures
        job_of(source) matches Some(JobView::Wikipedia { page, brand, kind }) ==> {
            &&& page == "List_of_iPhone_models"@ || page == "List_of_Huawei_products"@ || page
                == "List_of_Honor_phones"@
            &&& brand == "Apple"@ <==> page == "List_of_iPhone_models"@
            &&& brand == "Huawei"@ <==> page == "List_of_Huawei_products"@
            &&& brand == "Honor"@ <==> page == "List_of_Honor_phones"@
            &&& kind == "apple-columns"@ <==> source == "apple-all"@
            &&& kind == "apple"@ <==> source == "wikipedia-apple"@
            &&& kind == "huawei"@ <==> source == "wikipedia-huawei"@ || source
                == "wikipedia-honor"@
        },
        job_of(source) matches Some(JobView::Tenaa) <==> source == "tenaa"@,
        job_of(source) matches Some(JobView::GooglePlay) <==> source == "google-play"@,
        job_of(source) matches Some(JobView::AppleSupport) <==> source == "apple"@,
        job_of(source) matches Some(JobView::HuaweiModels) <==> source
            == "wikipedia-huawei-models"@,
        job_of(source) matches Some(JobView::Wikipedia { page, brand, kind }) <==> source
            == "apple-all"@ || source == "wikipedia-apple"@ || source == "wikipedia-huawei"@
            || source == "wikipedia-honor"@,
{
    reveal_strlit("google-play");
    reveal_strlit("apple");
    reveal_strlit("apple-all");
    reveal_strlit("apple-columns");
    reveal_strlit("wikipedia-apple");
    reveal_strlit("wikipedia-huawei");
    reveal_strlit("wikipedia-honor");
    reveal_strlit("wikipedia-huawei-models");
    reveal_strlit("tenaa");
    reveal_strlit("huawei");
    reveal_strlit("Apple");
    reveal_strlit("Huawei");
    reveal_strlit("Honor");
    reveal_strlit("List_of_iPhone_models");
    reveal_strlit("List_of_Huawei_products");
    reveal_strlit("List_of_Honor_phones");
    assert("google-play"@.len() == 11 && "apple-all"@.len() == 9 && "apple-columns"@.len() == 13);
    assert("wikipedia-apple"@.len() == 15 && "wikipedia-huawei"@.len() == 16);
    assert("wikipedia-honor"@.len() == 15 && "wikipedia-huawei-models"@.len() == 23);
    assert("tenaa"@.len() == 5 && "apple"@.len() == 5 && "huawei"@.len() == 6);
    assert("Apple"@.len() == 5 && "Huawei"@.len() == 6 && "Honor"@.len() == 5);
    assert("List_of_iPhone_models"@.len() == 21 && "List_of_Huawei_products"@.len() == 23);
    assert("List_of_Honor_phones"@.len() == 20);
    assert("wikipedia-apple"@[10] == 'a' && "wikipedia-huawei"@[11] == 'u'
        && "wikipedia-honor"@[11] == 'o' && "wikipedia-huawei"@[10] == 'h');
    assert("apple"@[0] == 'a' && "tenaa"@[0] == 't' && "huawei"@[0] == 'h' && "Honor"@[0] == 'H'
        && "Apple"@[0] == 'A');
}

} // verus!
