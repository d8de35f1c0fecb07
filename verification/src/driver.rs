//! What the program around the stack decides: how it reads its arguments,
//! and when the timers of the stack are due.
use vstd::prelude::*;
use vstd::string::StringExecFns;

verus! {

/// How often the timers of the stack run.
pub const TICK_MS: u64 = 100;

/// The options of the program.
pub struct Options {
    pub iface: String,
    pub addr: String,
    pub host: String,
}

/// The contents of the options.
pub struct OptionsView {
    pub iface: Seq<char>,
    pub addr: Seq<char>,
    pub host: Seq<char>,
}

impl View for Options {
    type V = OptionsView;

    open spec fn view(&self) -> OptionsView {
        OptionsView { iface: self.iface@, addr: self.addr@, host: self.host@ }
    }
}

/// The contents of a list of arguments.
pub open spec fn arg_views(args: Seq<String>) -> Seq<Seq<char>> {
    Seq::new(args.len(), |i: int| args[i]@)
}

/// The options without any arguments.
pub open spec fn default_options() -> OptionsView {
    OptionsView { iface: "tun0"@, addr: "10.0.0.2"@, host: "10.0.0.1"@ }
}

/// The value after the option at place `i`, or what it would replace if there
/// is none.
pub open spec fn value_after(args: Seq<Seq<char>>, i: int, old_value: Seq<char>) -> Seq<char> {
    if i + 1 < args.len() {
        args[i + 1]
    } else {
        old_value
    }
}

/// The options read from place `i` on, each a name and a value, over those
/// read before; or the first name that is none.
pub open spec fn read_options(args: Seq<Seq<char>>, i: int, o: OptionsView) -> Result<
    OptionsView,
    Seq<char>,
>
    decreases
        if i < args.len() {
            args.len() - i
        } else {
            0
        },
{
    if i >= args.len() {
        Ok(o)
    } else if args[i] == "--iface"@ {
        read_options(args, i + 2, OptionsView { iface: value_after(args, i, o.iface), ..o })
    } else if args[i] == "--addr"@ {
        read_options(args, i + 2, OptionsView { addr: value_after(args, i, o.addr), ..o })
    } else if args[i] == "--host"@ {
        read_options(args, i + 2, OptionsView { host: value_after(args, i, o.host), ..o })
    } else {
        Err(args[i])
    }
}

/// Whether an argument is this text.
fn is(arg: &String, text: &str) -> (same: bool)
    ensures
        same == (arg@ == text@),
{
    *arg == String::from_str(text)
}

impl Options {
    /// Reads the arguments of the program, of which the first is its name.
    pub fn parse(args: &[String]) -> (r: Result<Options, String>)
        ensures
            match r {
                Ok(o) => read_options(arg_views(args@), 1, default_options()) == Ok::<
                    OptionsView,
                    Seq<char>,
                >(o@),
                Err(name) => read_options(arg_views(args@), 1, default_options()) == Err::<
                    OptionsView,
                    Seq<char>,
                >(name@),
            },
    {
        let mut o = Options {
            iface: String::from_str("tun0"),
            addr: String::from_str("10.0.0.2"),
            host: String::from_str("10.0.0.1"),
        };
        let mut i: usize = 1;
        while i < args.len()
            invariant
                read_options(arg_views(args@), i as int, o@) == read_options(
                    arg_views(args@),
                    1,
                    default_options(),
                ),
            decreases args.len() - i,
        {
            let ghost views = arg_views(args@);
            assert(views[i as int] == args[i as int]@);
            let more: bool = args.len() - i > 1;
            assert(more ==> views[i + 1] == args[i + 1]@);
            if is(&args[i], "--iface") {
                if more {
                    o.iface = args[i + 1].clone();
                }
            } else if is(&args[i], "--addr") {
                if more {
                    o.addr = args[i + 1].clone();
                }
            } else if is(&args[i], "--host") {
                if more {
                    o.host = args[i + 1].clone();
                }
            } else {
                return Err(args[i].clone());
            }
            if !more {
                reveal_with_fuel(read_options, 2);
                return Ok(o);
            }
            i = i + 2;
        }
        Ok(o)
    }
}

/// Whether the timers are due at `now`, if they last ran at `last`.
pub fn tick_due(last: u64, now: u64) -> (due: bool)
    ensures
        due == (now - last >= TICK_MS),
{
    now.saturating_sub(last) >= TICK_MS
}

} // verus!
