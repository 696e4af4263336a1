//! The daemon's arguments.
use vstd::prelude::*;
use vstd::string::StringExecFns;
use crate::text::{debug_text, is_text, owned, quoted};

verus! {

/// How the daemon is used.
pub const USAGE: &'static str = "Usage: lumiere-daemon [OPTIONS]

Options:
  --sim              Serve four simulated lights instead of Bluetooth hardware
  --bind ADDR:PORT   Listen address for this run, overriding the config file
                     (example: --bind 127.0.0.1:9090)
  --log FILTER       Tracing filter for this run (example: debug or
                     lumiere_daemon=debug,lumiere_transport=trace)
  --disable-authentication
                     Serve the API without bearer-token checks for this run.
                     Anyone who can reach the port controls the lights; meant
                     for trusted networks like a tailnet or loopback.
                     Set disable_authentication = true in the config file to
                     make it permanent (e.g. for the brew service).
  -h, --help         Show this help

The persistent listen address, auth token, and CORS origins live in the config
file printed at startup. Environment overrides: LUMIERE_CONFIG_DIR,
LUMIERE_DATA_DIR, LUMIERE_WEB_ROOT. RUST_LOG sets the tracing filter.";

/// What the daemon's arguments ask for.
#[derive(Debug)]
pub struct Args {
    pub sim: bool,
    /// The place of the argument with the address to listen on.
    pub bind: Option<usize>,
    pub log: Option<String>,
    pub disable_authentication: bool,
}

/// What the daemon's arguments ask for, or that they ask for help.
#[derive(Debug)]
pub enum Parsed {
    Run(Args),
    Help,
}

/// What arguments ask for, in plain values.
#[verifier::ext_equal]
pub struct ArgsModel {
    pub sim: bool,
    pub bind: Option<int>,
    pub log: Option<Seq<char>>,
    pub disable_authentication: bool,
}

impl View for Args {
    type V = ArgsModel;

    open spec fn view(&self) -> ArgsModel {
        ArgsModel {
            sim: self.sim,
            bind: match self.bind {
                Some(place) => Some(place as int),
                None => None,
            },
            log: match self.log {
                Some(filter) => Some(filter@),
                None => None,
            },
            disable_authentication: self.disable_authentication,
        }
    }
}

/// What the arguments from a place on ask for, on top of what was asked before;
/// `None` for help. Later settings override earlier ones. `addresses` tells which
/// arguments are addresses that can be listened on.
pub open spec fn asked(
    args: Seq<String>,
    addresses: Seq<bool>,
    from: int,
    before: ArgsModel,
) -> Result<Option<ArgsModel>, Seq<char>>
    decreases args.len() - from,
{
    if from < 0 || from >= args.len() {
        Ok(Some(before))
    } else {
        let arg = args[from]@;
        if arg == "--sim"@ {
            asked(args, addresses, from + 1, ArgsModel { sim: true, ..before })
        } else if arg == "--bind"@ {
            if from + 1 >= args.len() {
                Err("--bind requires ADDR:PORT"@)
            } else if !addresses[from + 1] {
                Err(
                    "invalid --bind value "@ + debug_text(args[from + 1]@)
                        + "; expected ADDR:PORT like 127.0.0.1:9090"@,
                )
            } else {
                asked(args, addresses, from + 2, ArgsModel { bind: Some(from + 1), ..before })
            }
        } else if arg == "--log"@ {
            if from + 1 >= args.len() {
                Err("--log requires FILTER"@)
            } else {
                asked(
                    args,
                    addresses,
                    from + 2,
                    ArgsModel { log: Some(args[from + 1]@), ..before },
                )
            }
        } else if arg == "--disable-authentication"@ {
            asked(
                args,
                addresses,
                from + 1,
                ArgsModel { disable_authentication: true, ..before },
            )
        } else if arg == "-h"@ || arg == "--help"@ {
            Ok(None)
        } else {
            Err("unknown argument "@ + debug_text(arg) + "\n\n"@ + USAGE@)
        }
    }
}

/// What is asked for without any arguments.
pub open spec fn nothing_asked() -> ArgsModel {
    ArgsModel { sim: false, bind: None, log: None, disable_authentication: false }
}

/// Reads the daemon's arguments. `addresses` tells which of them are addresses
/// that can be listened on.
pub fn parse(args: &Vec<String>, addresses: &Vec<bool>) -> (r: Result<Parsed, String>)
    requires
        args@.len() == addresses@.len(),
    ensures
        match r {
            Ok(Parsed::Run(parsed)) => asked(args@, addresses@, 0, nothing_asked()) == Ok::<
                Option<ArgsModel>,
                Seq<char>,
            >(Some(parsed@)),
            Ok(Parsed::Help) => asked(args@, addresses@, 0, nothing_asked()) == Ok::<
                Option<ArgsModel>,
                Seq<char>,
            >(None),
            Err(message) => asked(args@, addresses@, 0, nothing_asked()) == Err::<
                Option<ArgsModel>,
                Seq<char>,
            >(message@),
        },
{
    let n: usize = args.len();
    let mut parsed = Args { sim: false, bind: None, log: None, disable_authentication: false };
    let mut i: usize = 0;
    assert(parsed@ =~= nothing_asked());
    while i < n
        invariant
            i <= n,
            n == args@.len(),
            n == addresses@.len(),
            asked(args@, addresses@, 0, nothing_asked()) == asked(
                args@,
                addresses@,
                i as int,
                parsed@,
            ),
        decreases n - i,
    {
        let ghost before = parsed@;
        let argument = &args[i];
        if is_text(argument, "--sim") {
            parsed.sim = true;
            assert(parsed@ =~= ArgsModel { sim: true, ..before });
            i += 1;
        } else if is_text(argument, "--bind") {
            if i + 1 >= n {
                return Err(owned("--bind requires ADDR:PORT"));
            }
            if !addresses[i + 1] {
                let mut text = owned("invalid --bind value ");
                let value = quoted(args[i + 1].as_str());
                text.append(value.as_str());
                text.append("; expected ADDR:PORT like 127.0.0.1:9090");
                return Err(text);
            }
            parsed.bind = Some(i + 1);
            assert(parsed@ =~= ArgsModel { bind: Some(i + 1), ..before });
            i += 2;
        } else if is_text(argument, "--log") {
            if i + 1 >= n {
                return Err(owned("--log requires FILTER"));
            }
            parsed.log = Some(args[i + 1].clone());
            assert(parsed@ =~= ArgsModel { log: Some(args@[i + 1]@), ..before });
            i += 2;
        } else if is_text(argument, "--disable-authentication") {
            parsed.disable_authentication = true;
            assert(parsed@ =~= ArgsModel { disable_authentication: true, ..before });
            i += 1;
        } else if is_text(argument, "-h") || is_text(argument, "--help") {
            return Ok(Parsed::Help);
        } else {
            let mut text = owned("unknown argument ");
            let name = quoted(argument.as_str());
            text.append(name.as_str());
            text.append("\n\n");
            text.append(USAGE);
            return Err(text);
        }
    }
    Ok(Parsed::Run(parsed))
}

/// The filter for log messages: that of the flag, else that of the environment,
/// else that of the configuration, else one for information.
pub fn log_directive<'a>(
    flag: Option<&'a str>,
    environment: Option<&'a str>,
    config: Option<&'a str>,
) -> (r: &'a str)
    ensures
        r@ == match (flag, environment, config) {
            (Some(filter), _, _) => filter@,
            (None, Some(filter), _) => filter@,
            (None, None, Some(filter)) => filter@,
            (None, None, None) => "info"@,
        },
{
    match flag {
        Some(filter) => filter,
        None => match environment {
            Some(filter) => filter,
            None => match config {
                Some(filter) => filter,
                None => "info",
            },
        },
    }
}

proof fn reading_goes_on(
    args: Seq<String>,
    addresses: Seq<bool>,
    more: Seq<String>,
    more_addresses: Seq<bool>,
    from: int,
    before: ArgsModel,
)
    requires
        args.len() == addresses.len(),
        0 <= from <= args.len(),
    ensures
        asked(args, addresses, from, before) matches Ok(Some(parsed)) ==> asked(
            args + more,
            addresses + more_addresses,
            from,
            before,
        ) == asked(args + more, addresses + more_addresses, args.len() as int, parsed),
        asked(args, addresses, from, before) matches Ok(None) ==> asked(
            args + more,
            addresses + more_addresses,
            from,
            before,
        ) == Ok::<Option<ArgsModel>, Seq<char>>(None),
    decreases args.len() - from,
{
    let all = args + more;
    let known = addresses + more_addresses;
    if from < args.len() {
        assert(all[from] == args[from]);
        let arg = args[from]@;
        if arg == "--sim"@ {
            reading_goes_on(
                args,
                addresses,
                more,
                more_addresses,
                from + 1,
                ArgsModel { sim: true, ..before },
            );
        } else if arg == "--bind"@ {
            if from + 1 < args.len() && addresses[from + 1] {
                assert(known[from + 1] == addresses[from + 1]);
                reading_goes_on(
                    args,
                    addresses,
                    more,
                    more_addresses,
                    from + 2,
                    ArgsModel { bind: Some(from + 1), ..before },
                );
            }
        } else if arg == "--log"@ {
            if from + 1 < args.len() {
                assert(all[from + 1] == args[from + 1]);
                reading_goes_on(
                    args,
                    addresses,
                    more,
                    more_addresses,
                    from + 2,
                    ArgsModel { log: Some(args[from + 1]@), ..before },
                );
            }
        } else if arg == "--disable-authentication"@ {
            reading_goes_on(
                args,
                addresses,
                more,
                more_addresses,
                from + 1,
                ArgsModel { disable_authentication: true, ..before },
            );
        }
    }
}

/// Without arguments nothing is asked. An option adds what it names to what the arguments
/// before it asked, and leaves the rest; of two values for one option the later counts. A
/// wish for help ends the reading, and what is no option is refused.
pub proof fn options_add_to_what_was_asked(
    args: Seq<String>,
    addresses: Seq<bool>,
    more: Seq<String>,
    more_addresses: Seq<bool>,
    parsed: ArgsModel,
)
    requires
        args.len() == addresses.len(),
        more.len() == more_addresses.len(),
        more.len() > 0,
        asked(args, addresses, 0, nothing_asked()) == Ok::<Option<ArgsModel>, Seq<char>>(
            Some(parsed),
        ),
    ensures
        args.len() == 0 ==> !parsed.sim && parsed.bind is None && parsed.log is None
            && !parsed.disable_authentication,
        ({
            let result = asked(args + more, addresses + more_addresses, 0, nothing_asked());
            let option = more[0]@;
            &&& more.len() == 1 && option == "--sim"@ ==> result == Ok::<
                Option<ArgsModel>,
                Seq<char>,
            >(Some(ArgsModel { sim: true, ..parsed }))
            &&& more.len() == 1 && option == "--disable-authentication"@ ==> result == Ok::<
                Option<ArgsModel>,
                Seq<char>,
            >(Some(ArgsModel { disable_authentication: true, ..parsed }))
            &&& more.len() == 2 && option == "--log"@ ==> result == Ok::<
                Option<ArgsModel>,
                Seq<char>,
            >(Some(ArgsModel { log: Some(more[1]@), ..parsed }))
            &&& more.len() == 2 && option == "--bind"@ && more_addresses[1] ==> result == Ok::<
                Option<ArgsModel>,
                Seq<char>,
            >(Some(ArgsModel { bind: Some(args.len() as int + 1), ..parsed }))
            &&& more.len() >= 2 && option == "--bind"@ && !more_addresses[1] ==> result is Err
            &&& more.len() == 1 && (option == "--log"@ || option == "--bind"@) ==> result is Err
            &&& option == "-h"@ || option == "--help"@ ==> result == Ok::<
                Option<ArgsModel>,
                Seq<char>,
            >(None)
            &&& option != "--sim"@ && option != "--disable-authentication"@ && option != "--log"@
                && option != "--bind"@ && option != "-h"@ && option != "--help"@ ==> result is Err
        }),
{
    reveal_strlit("--sim");
    reveal_strlit("--bind");
    reveal_strlit("--log");
    reveal_strlit("--disable-authentication");
    reveal_strlit("-h");
    reveal_strlit("--help");
    assert("--sim"@[2] == 's' && "--log"@[2] == 'l' && "--bind"@[2] == 'b' && "--help"@[2] == 'h');
    assert("-h"@.len() == 2 && "--sim"@.len() == 5 && "--bind"@.len() == 6 && "--log"@.len() == 5
        && "--disable-authentication"@.len() == 24 && "--help"@.len() == 6);
    reading_goes_on(args, addresses, more, more_addresses, 0, nothing_asked());
    let all = args + more;
    let known = addresses + more_addresses;
    let n = args.len() as int;
    assert(all[n] == more[0]);
    if more.len() > 1 {
        assert(all[n + 1] == more[1]);
        assert(known[n + 1] == more_addresses[1]);
    }
    reveal_with_fuel(asked, 2);
}

} // verus!
