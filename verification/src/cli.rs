//! Arguments of the program.
use crate::text;
use crate::text::{parse_u16, same, strip_prefix};
use vstd::prelude::*;
use vstd::string::*;

verus! {

/// The port that a text writes, where it is one.
pub open spec fn port_of(s: Seq<char>) -> Option<u16> {
    match text::unsigned_value(s) {
        Some(n) => if 0 < n <= 65535 {
            Some(n as u16)
        } else {
            None
        },
        None => None,
    }
}

/// The port after one more value, where none was set before and the value is one.
pub open spec fn with_port(port: Option<u16>, value: Seq<char>) -> Result<Option<u16>, Seq<char>> {
    if port is Some {
        Err("--port 不能重复指定"@)
    } else {
        match port_of(value) {
            Some(p) => Ok(Some(p)),
            None => Err("端口必须为1–65535的整数"@),
        }
    }
}

/// The port that arguments set from a place on, after those before it.
pub open spec fn ports_from(args: Seq<Seq<char>>, i: int, port: Option<u16>) -> Result<
    Option<u16>,
    Seq<char>,
>
    decreases args.len() - i,
{
    if i < 0 || i >= args.len() {
        Ok(port)
    } else if args[i] == "--port"@ {
        if i + 1 >= args.len() {
            Err("--port 缺少端口值"@)
        } else {
            match with_port(port, args[i + 1]) {
                Ok(p) => ports_from(args, i + 2, p),
                Err(e) => Err(e),
            }
        }
    } else {
        match text::after(args[i], "--port="@) {
            Some(value) => match with_port(port, value) {
                Ok(p) => ports_from(args, i + 1, p),
                Err(e) => Err(e),
            },
            None => Err("未知参数："@ + args[i] + "；用法：forest-router [--port 8119]"@),
        }
    }
}

/// The model of a result.
pub open spec fn result_view(r: Result<Option<u16>, String>) -> Result<Option<u16>, Seq<char>> {
    match r {
        Ok(p) => Ok(p),
        Err(e) => Err(e@),
    }
}

fn add_port(port: Option<u16>, value: &str) -> (r: Result<Option<u16>, String>)
    ensures
        result_view(r) == with_port(port, value@),
{
    if port.is_some() {
        return Err("--port 不能重复指定".to_owned());
    }
    match parse_u16(value) {
        Some(p) => if p > 0 {
            Ok(Some(p))
        } else {
            Err("端口必须为1–65535的整数".to_owned())
        },
        None => Err("端口必须为1–65535的整数".to_owned()),
    }
}

/// The port that arguments set, or what is wrong with them.
pub fn parse_port(args: &Vec<String>) -> (r: Result<Option<u16>, String>)
    ensures
        result_view(r) == ports_from(text::views(args@), 0, None),
{
    let ghost all = text::views(args@);
    let mut port: Option<u16> = None;
    let mut i: usize = 0;
    while i < args.len()
        invariant
            i <= args@.len(),
            all == text::views(args@),
            all.len() == args@.len(),
            ports_from(all, 0, None) == ports_from(all, i as int, port),
        decreases args@.len() - i,
    {
        let arg = args[i].as_str();
        assert(all[i as int] == arg@);
        if same(arg, "--port") {
            if args.len() - i == 1 {
                return Err("--port 缺少端口值".to_owned());
            }
            assert(all[i + 1] == args@[i + 1]@);
            match add_port(port, args[i + 1].as_str()) {
                Ok(p) => {
                    port = p;
                },
                Err(e) => {
                    return Err(e);
                },
            }
            i = i + 2;
        } else {
            match strip_prefix(arg, "--port=") {
                Some(value) => match add_port(port, value.as_str()) {
                    Ok(p) => {
                        port = p;
                    },
                    Err(e) => {
                        return Err(e);
                    },
                },
                None => {
                    return Err(
                        "未知参数：".to_owned().concat(arg).concat(
                            "；用法：forest-router [--port 8119]",
                        ),
                    );
                },
            }
            i = i + 1;
        }
    }
    Ok(port)
}

/// A port that arguments set is never zero.
pub proof fn ports_are_positive(args: Seq<Seq<char>>, i: int, port: Option<u16>)
    requires
        port is Some ==> port->0 > 0,
    ensures
        match ports_from(args, i, port) {
            Ok(Some(p)) => p > 0,
            _ => true,
        },
    decreases args.len() - i,
{
    if 0 <= i < args.len() {
        if args[i] == "--port"@ {
            if i + 1 < args.len() {
                match with_port(port, args[i + 1]) {
                    Ok(p) => ports_are_positive(args, i + 2, p),
                    Err(_) => {},
                }
            }
        } else {
            match text::after(args[i], "--port="@) {
                Some(value) => match with_port(port, value) {
                    Ok(p) => ports_are_positive(args, i + 1, p),
                    Err(_) => {},
                },
                None => {},
            }
        }
    }
}

/// Without arguments no port is set.
pub proof fn no_arguments_set_no_port(args: Seq<Seq<char>>)
    requires
        args.len() == 0,
    ensures
        ports_from(args, 0, None) == Ok::<Option<u16>, Seq<char>>(None),
{
}

/// Every port from 1 to 65535 can be set, in either of two spellings, and no other number is a port.
pub proof fn ports_can_be_set(n: nat)
    ensures
        1 <= n <= 65535 ==> ports_from(seq!["--port"@, text::decimal(n)], 0, None) == Ok::<
            Option<u16>,
            Seq<char>,
        >(Some(n as u16)),
        1 <= n <= 65535 ==> ports_from(seq!["--port="@ + text::decimal(n)], 0, None) == Ok::<
            Option<u16>,
            Seq<char>,
        >(Some(n as u16)),
        !(1 <= n <= 65535) ==> ports_from(seq!["--port"@, text::decimal(n)], 0, None) == Err::<
            Option<u16>,
            Seq<char>,
        >("端口必须为1–65535的整数"@),
        !(1 <= n <= 65535) ==> ports_from(seq!["--port="@ + text::decimal(n)], 0, None) == Err::<
            Option<u16>,
            Seq<char>,
        >("端口必须为1–65535的整数"@),
{
    reveal_with_fuel(ports_from, 3);
    text::decimals_are_read_back(n);
    text::prefixes_are_cut("--port="@, text::decimal(n), "--port="@ + text::decimal(n));
    reveal_strlit("--port");
    reveal_strlit("--port=");
    assert("--port"@.len() == 6);
    assert("--port="@.len() == 7);
    assert(("--port="@ + text::decimal(n)).len() > 6);
}

/// A port is set once: whatever comes after it as another is refused, and so is an argument that sets
/// none, and a port that is not given.
pub proof fn ports_are_set_once(port: u16, value: Seq<char>, other: Seq<char>)
    requires
        other != "--port"@,
        !text::begins(other, "--port="@),
    ensures
        ports_from(seq!["--port"@, value], 0, Some(port)) == Err::<Option<u16>, Seq<char>>(
            "--port 不能重复指定"@,
        ),
        ports_from(seq!["--port="@ + value], 0, Some(port)) == Err::<Option<u16>, Seq<char>>(
            "--port 不能重复指定"@,
        ),
        ports_from(seq![other], 0, Some(port)) == Err::<Option<u16>, Seq<char>>(
            "未知参数："@ + other + "；用法：forest-router [--port 8119]"@,
        ),
        ports_from(seq!["--port"@], 0, None) == Err::<Option<u16>, Seq<char>>(
            "--port 缺少端口值"@,
        ),
{
    text::prefixes_are_cut("--port="@, value, "--port="@ + value);
    reveal_strlit("--port");
    reveal_strlit("--port=");
    assert("--port"@.len() == 6);
    assert(("--port="@ + value).len() >= 7);
}

} // verus!
