//! What holds of the options of the program and of the request for its
//! interface.
use vstd::prelude::*;

use crate::driver::{arg_views, default_options, read_options, Options, OptionsView, TICK_MS};
use crate::interface::{request_bytes, without_trailing_zeros, NAME_LEN, REQUEST_LEN};

verus! {

/// Without arguments the options have their defaults, and the timers run
/// every tenth of a second.
pub proof fn law_defaults(program: Seq<char>)
    ensures
        read_options(Seq::empty(), 1, default_options()) == Ok::<OptionsView, Seq<char>>(
            default_options(),
        ),
        read_options(seq![program], 1, default_options()) == Ok::<OptionsView, Seq<char>>(
            default_options(),
        ),
        default_options().iface == "tun0"@,
        default_options().addr == "10.0.0.2"@,
        default_options().host == "10.0.0.1"@,
        TICK_MS == 100,
{
}

/// What follows the last place of a list is read after all before it.
proof fn lemma_read_on(args: Seq<Seq<char>>, more: Seq<Seq<char>>, i: int, o: OptionsView)
    requires
        0 <= i <= args.len(),
        (args.len() - i) % 2 == 0,
    ensures
        read_options(args + more, i, o) == (match read_options(args, i, o) {
            Ok(p) => read_options(args + more, args.len() as int, p),
            Err(e) => Err(e),
        }),
    decreases args.len() - i,
{
    let all = args + more;
    if i < args.len() {
        assert(all[i] == args[i]);
        assert(all[i + 1] == args[i + 1]);
        let v = args[i + 1];
        lemma_read_on(args, more, i + 2, OptionsView { iface: v, ..o });
        lemma_read_on(args, more, i + 2, OptionsView { addr: v, ..o });
        lemma_read_on(args, more, i + 2, OptionsView { host: v, ..o });
    }
}

/// Each option replaces one value and no other, whatever came before it; the
/// last one of a kind counts.
pub proof fn law_options_are_set(
    args: Seq<Seq<char>>,
    name: Seq<char>,
    value: Seq<char>,
    o: OptionsView,
)
    requires
        args.len() % 2 == 1,
        read_options(args, 1, default_options()) == Ok::<OptionsView, Seq<char>>(o),
    ensures
        ({
            let r = read_options(args + seq![name, value], 1, default_options());
            &&& name == "--iface"@ ==> r == Ok::<OptionsView, Seq<char>>(
                OptionsView { iface: value, addr: o.addr, host: o.host },
            )
            &&& name == "--addr"@ ==> r == Ok::<OptionsView, Seq<char>>(
                OptionsView { iface: o.iface, addr: value, host: o.host },
            )
            &&& name == "--host"@ ==> r == Ok::<OptionsView, Seq<char>>(
                OptionsView { iface: o.iface, addr: o.addr, host: value },
            )
            &&& name != "--iface"@ && name != "--addr"@ && name != "--host"@ ==> r == Err::<
                OptionsView,
                Seq<char>,
            >(name)
        }),
{
    let more = seq![name, value];
    let all = args + more;
    let n = args.len() as int;
    lemma_read_on(args, more, 1, default_options());
    assert(all[n] == name && all[n + 1] == value);
    reveal_strlit("--iface");
    reveal_strlit("--addr");
    reveal_strlit("--host");
    assert("--iface"@.len() == 7 && "--addr"@.len() == 6 && "--host"@.len() == 6);
    assert("--addr"@[2] == 'a' && "--host"@[2] == 'h');
    reveal_with_fuel(read_options, 2);
}

/// An option without a value changes nothing, and an unknown one is named.
pub proof fn law_options_without_a_value(args: Seq<Seq<char>>, name: Seq<char>, o: OptionsView)
    requires
        args.len() % 2 == 1,
        read_options(args, 1, default_options()) == Ok::<OptionsView, Seq<char>>(o),
    ensures
        ({
            let r = read_options(args.push(name), 1, default_options());
            if name == "--iface"@ || name == "--addr"@ || name == "--host"@ {
                r == Ok::<OptionsView, Seq<char>>(o)
            } else {
                r == Err::<OptionsView, Seq<char>>(name)
            }
        }),
{
    let more = seq![name];
    assert(args.push(name) =~= args + more);
    lemma_read_on(args, more, 1, default_options());
    assert((args + more)[args.len() as int] == name);
    reveal_with_fuel(read_options, 2);
}

/// The first unknown option is the one that is named, whatever follows.
pub proof fn law_first_unknown_option_counts(
    args: Seq<Seq<char>>,
    more: Seq<Seq<char>>,
    name: Seq<char>,
)
    requires
        args.len() % 2 == 1,
        read_options(args, 1, default_options()) == Err::<OptionsView, Seq<char>>(name),
    ensures
        read_options(args + more, 1, default_options()) == Err::<OptionsView, Seq<char>>(name),
{
    lemma_read_on(args, more, 1, default_options());
}

/// The request for an interface: forty bytes, the name in the first sixteen,
/// the flags in the next two, and zeros everywhere else.
pub proof fn law_request_byte_by_byte(name: Seq<u8>, flags: Seq<u8>)
    requires
        name.len() < 16,
        flags.len() == 2,
    ensures
        NAME_LEN == 16,
        REQUEST_LEN == 40,
        ({
            let b = request_bytes(name, flags);
            &&& b.len() == 40
            &&& b.take(name.len() as int) == name
            &&& forall|i: int| name.len() <= i < 16 ==> #[trigger] b[i] == 0
            &&& b[16] == flags[0] && b[17] == flags[1]
            &&& forall|i: int| 18 <= i < 40 ==> #[trigger] b[i] == 0
        }),
{
    let b = request_bytes(name, flags);
    assert(b.take(name.len() as int) =~= name);
}

/// A name ends before the zeros at the end of its field.
pub proof fn law_name_ends_before_the_zeros(t: Seq<char>)
    ensures
        ({
            let name = without_trailing_zeros(t);
            &&& name.len() <= t.len()
            &&& name == t.take(name.len() as int)
            &&& name.len() > 0 ==> name.last() != '\0'
            &&& forall|i: int| name.len() <= i < t.len() ==> #[trigger] t[i] == '\0'
        }),
    decreases t.len(),
{
    if t.len() > 0 && t.last() == '\0' {
        let s = t.drop_last();
        law_name_ends_before_the_zeros(s);
        let name = without_trailing_zeros(s);
        assert(s.take(name.len() as int) =~= t.take(name.len() as int));
        assert forall|i: int| name.len() <= i < t.len() implies #[trigger] t[i] == '\0' by {
            if i < s.len() {
                assert(s[i] == t[i]);
            }
        }
    } else {
        assert(t.take(t.len() as int) =~= t);
    }
}

/// The contents of the options and of the arguments are what they hold, in
/// order.
pub proof fn law_contents_of_the_options(o: Options, args: Seq<String>, i: int)
    ensures
        o@ == (OptionsView { iface: o.iface@, addr: o.addr@, host: o.host@ }),
        arg_views(args).len() == args.len(),
        0 <= i < args.len() ==> arg_views(args)[i] == args[i]@,
{
}

} // verus!
