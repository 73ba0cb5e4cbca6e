//! Command-line options in the manner of getopt: single-letter options, with
//! or without an argument, that may be written together behind one dash.

use std::collections::BTreeMap;
use std::collections::HashMap;
use vstd::prelude::*;
use vstd::utf8::encode_utf8;

verus! {

/// Whether an option takes an argument; one that does has a default, which
/// counts as given unless it is empty.
pub enum OptArg<'a> {
    Flag,
    Mandatory(&'a str),
}

/// The options that a program knows, by their letter: for each whether it
/// takes an argument, and a line that describes it.
pub type OptCheck<'a> = BTreeMap<u8, (OptArg<'a>, &'a str)>;

/// Why a command line was refused.
#[derive(Debug)]
pub enum OptError {
    /// The letter is not an option.
    InvalidOption(u8),
    /// The option takes an argument, and the command line ends before it.
    MissingArgument(u8),
}

impl OptError {
    /// The letter that the command line was refused for.
    pub open spec fn letter(self) -> u8 {
        match self {
            OptError::InvalidOption(c) => c,
            OptError::MissingArgument(c) => c,
        }
    }

    /// The complaint in words, without the letter.
    pub open spec fn complaint(self) -> Seq<char> {
        match self {
            OptError::InvalidOption(_) => "invalid option -- '"@,
            OptError::MissingArgument(_) => "option requires an argument -- '"@,
        }
    }

    /// The complaint as a user reads it: the words, and the letter between
    /// quotes.
    pub fn message(&self) -> (r: String)
        ensures
            r@ == self.complaint() + seq![self.letter() as char] + "'"@,
    {
        let (mut text, c) = match self {
            OptError::InvalidOption(c) => (String::from_str("invalid option -- '"), *c),
            OptError::MissingArgument(c) => (
                String::from_str("option requires an argument -- '"),
                *c,
            ),
        };
        text.push(c as char);
        text.append("'");
        text
    }
}

/// The help text for the first `k` letters: a line for each that is an
/// option, each line after a line break and a tab.
pub open spec fn usage_upto(table: Map<u8, (OptArg<'_>, &str)>, k: int) -> Seq<char>
    decreases k,
{
    if k <= 0 {
        Seq::empty()
    } else {
        let before = usage_upto(table, k - 1);
        if table.contains_key((k - 1) as u8) {
            before + "\n\t"@ + table[(k - 1) as u8].1@
        } else {
            before
        }
    }
}

/// The help text: a heading and a line for each option, in the order of the
/// letters; nothing at all where there are no options.
pub open spec fn usage_text(table: Map<u8, (OptArg<'_>, &str)>) -> Seq<char> {
    if table.dom().is_empty() {
        Seq::empty()
    } else {
        "OPTIONS: "@ + usage_upto(table, 256)
    }
}

/// The help text for the options.
pub fn usage(opt_check: &OptCheck) -> (r: String)
    ensures
        r@ == usage_text(opt_check@),
{
    let mut text = String::new();
    if opt_check.is_empty() {
        return text;
    }
    text.append("OPTIONS: ");
    let mut k: u8 = 0;
    loop
        invariant_except_break
            text@ == "OPTIONS: "@ + usage_upto(opt_check@, k as int),
        ensures
            text@ == "OPTIONS: "@ + usage_upto(opt_check@, 256),
        decreases 255 - k,
    {
        if let Some(entry) = opt_check.get(&k) {
            text.append("\n\t");
            text.append(entry.1);
        }
        if k == 255 {
            break ;
        }
        k += 1;
    }
    text
}

/// The UTF-8 bytes of each argument.
pub open spec fn bytes_of(args: Seq<String>) -> Seq<Seq<u8>> {
    Seq::new(args.len(), |i: int| encode_utf8(args[i]@))
}

/// The UTF-8 bytes of each operand.
pub open spec fn operand_bytes(operands: Seq<&str>) -> Seq<Seq<u8>> {
    Seq::new(operands.len(), |i: int| encode_utf8(operands[i]@))
}

/// The UTF-8 bytes of each option's argument.
pub open spec fn option_bytes(options: Map<u8, &str>) -> Map<u8, Seq<u8>> {
    Map::new(|k: u8| options.contains_key(k), |k: u8| encode_utf8(options[k]@))
}

/// What a command line says: the options given, each with its argument
/// (empty for an option that takes none), and the operands in their order.
pub struct Parsed {
    pub options: Map<u8, Seq<u8>>,
    pub operands: Seq<Seq<u8>>,
}

/// The options that count as given before the command line is read: those
/// that take an argument and have a default that is not empty.
pub open spec fn defaults(table: Map<u8, (OptArg<'_>, &str)>) -> Map<u8, Seq<u8>> {
    Map::new(
        |k: u8|
            table.contains_key(k) && (table[k].0 matches OptArg::Mandatory(d) && d@.len() > 0),
        |k: u8| encode_utf8(table[k].0->Mandatory_0@),
    )
}

/// Those of the defaults whose letter is below `k`.
pub open spec fn defaults_below(table: Map<u8, (OptArg<'_>, &str)>, k: int) -> Map<u8, Seq<u8>> {
    defaults(table).restrict(Set::new(|c: u8| c < k))
}

/// How the reading of one argument that holds options ends.
pub enum Scan {
    /// The options were all in the argument.
    Within(Map<u8, Seq<u8>>),
    /// The last option took the following argument as its own.
    Beyond(Map<u8, Seq<u8>>),
    /// The argument was refused.
    Refused(OptError),
}

/// An argument that holds the options "--" ends the options.
pub open spec fn is_end_of_options(arg: Seq<u8>) -> bool {
    arg.len() == 2 && arg[0] == 45 && arg[1] == 45
}

/// An argument holds options when it begins with a dash and goes on.
pub open spec fn holds_options(arg: Seq<u8>) -> bool {
    arg.len() >= 2 && arg[0] == 45
}

/// Reads the options in `arg` from the byte at `at` on.
///
/// A letter that is no option is refused. An option without argument is
/// given, and the next letter is read. An option with an argument takes the
/// rest of `arg` as its argument; where nothing is left, it takes `next`, the
/// following argument, and is refused where there is none. The rest of `arg`
/// has to be text: an option whose byte is part of a longer character is
/// refused as no option.
pub open spec fn scan(
    table: Map<u8, (OptArg<'_>, &str)>,
    arg: Seq<u8>,
    next: Option<Seq<u8>>,
    at: int,
    options: Map<u8, Seq<u8>>,
) -> Scan
    decreases arg.len() - at,
{
    if at < 0 || at >= arg.len() {
        Scan::Within(options)
    } else if !table.contains_key(arg[at]) {
        Scan::Refused(OptError::InvalidOption(arg[at]))
    } else {
        match table[arg[at]].0 {
            OptArg::Flag => scan(table, arg, next, at + 1, options.insert(arg[at], Seq::empty())),
            OptArg::Mandatory(_) => if at + 1 == arg.len() {
                match next {
                    Some(value) => Scan::Beyond(options.insert(arg[at], value)),
                    None => Scan::Refused(OptError::MissingArgument(arg[at])),
                }
            } else if vstd::utf8::is_char_boundary(arg, at + 1) {
                Scan::Within(options.insert(arg[at], arg.skip(at + 1)))
            } else {
                Scan::Refused(OptError::InvalidOption(arg[at]))
            },
        }
    }
}

/// The argument that follows the one at `i`, if there is one.
pub open spec fn following(args: Seq<Seq<u8>>, i: int) -> Option<Seq<u8>> {
    if i + 1 < args.len() {
        Some(args[i + 1])
    } else {
        None
    }
}

/// Reads the command line from the argument at `i` on.
///
/// The argument "--" ends the options: all that follows it is operands. An
/// argument that holds options is read as such, together with the argument
/// that its last option takes, if it takes one. Any other argument is an
/// operand.
pub open spec fn parse_from(
    table: Map<u8, (OptArg<'_>, &str)>,
    args: Seq<Seq<u8>>,
    i: int,
    options: Map<u8, Seq<u8>>,
    operands: Seq<Seq<u8>>,
) -> Result<Parsed, OptError>
    decreases args.len() + 1 - i,
{
    if i < 0 || i >= args.len() {
        Ok(Parsed { options, operands })
    } else if is_end_of_options(args[i]) {
        Ok(Parsed { options, operands: operands + args.skip(i + 1) })
    } else if holds_options(args[i]) {
        match scan(table, args[i], following(args, i), 1, options) {
            Scan::Within(o) => parse_from(table, args, i + 1, o, operands),
            Scan::Beyond(o) => parse_from(table, args, i + 2, o, operands),
            Scan::Refused(e) => Err(e),
        }
    } else {
        parse_from(table, args, i + 1, options, operands.push(args[i]))
    }
}

/// What the command line `args` says, given the options in `table`.
pub open spec fn parse(table: Map<u8, (OptArg<'_>, &str)>, args: Seq<Seq<u8>>) -> Result<
    Parsed,
    OptError,
> {
    parse_from(table, args, 0, defaults(table), Seq::empty())
}

/// Whether what was read is what the command line says.
pub open spec fn reads_as(
    r: Result<(HashMap<u8, &str>, Vec<&str>), OptError>,
    meaning: Result<Parsed, OptError>,
) -> bool {
    match meaning {
        Ok(p) => r matches Ok(pair) && option_bytes(pair.0@) == p.options && operand_bytes(pair.1@)
            == p.operands,
        Err(e) => r matches Err(f) && f == e,
    }
}

/// Reads the options in `arg`, which are the letters behind its first byte,
/// into `options`; `next` is the argument that follows. Tells whether the last
/// option took `next` as its argument.
pub fn scan_options<'a>(
    opt_check: &OptCheck<'a>,
    arg: &'a str,
    next: Option<&'a str>,
    options: &mut HashMap<u8, &'a str>,
) -> (r: Result<bool, OptError>)
    ensures
        match scan(
            opt_check@,
            encode_utf8(arg@),
            match next {
                Some(n) => Some(encode_utf8(n@)),
                None => None,
            },
            1,
            option_bytes(old(options)@),
        ) {
            Scan::Within(o) => r == Ok::<bool, OptError>(false) && option_bytes(final(options)@)
                == o,
            Scan::Beyond(o) => r == Ok::<bool, OptError>(true) && option_bytes(final(options)@)
                == o,
            Scan::Refused(e) => r == Err::<bool, OptError>(e),
        },
        r == Ok::<bool, OptError>(true) ==> next is Some,
{
    let b = arg.as_bytes();
    let ghost table = opt_check@;
    let ghost bytes = encode_utf8(arg@);
    let ghost follow = match next {
        Some(n) => Some(encode_utf8(n@)),
        None => None,
    };
    let ghost goal = scan(table, bytes, follow, 1, option_bytes(options@));
    let mut at: usize = 1;
    while at < b.len()
        invariant
            1 <= at,
            b@ == bytes,
            bytes == encode_utf8(arg@),
            table == opt_check@,
            follow == (match next {
                Some(n) => Some(encode_utf8(n@)),
                None => None,
            }),
            goal == scan(table, bytes, follow, 1, option_bytes(old(options)@)),
            goal == scan(table, bytes, follow, at as int, option_bytes(options@)),
        decreases b.len() - at,
    {
        let c = b[at];
        let ghost before = option_bytes(options@);
        match opt_check.get(&c) {
            None => {
                return Err(OptError::InvalidOption(c));
            },
            Some(entry) => match entry.0 {
                OptArg::Flag => {
                    options.insert(c, "");
                    proof {
                        reveal_strlit("");
                        assert(option_bytes(options@) =~= before.insert(c, Seq::empty()));
                    }
                    at += 1;
                },
                OptArg::Mandatory(_) => {
                    if at + 1 == b.len() {
                        match next {
                            Some(value) => {
                                options.insert(c, value);
                                return Ok(true);
                            },
                            None => {
                                return Err(OptError::MissingArgument(c));
                            },
                        }
                    } else if arg.is_char_boundary(at + 1) {
                        let (_, value) = arg.split_at(at + 1);
                        options.insert(c, value);
                        return Ok(false);
                    } else {
                        return Err(OptError::InvalidOption(c));
                    }
                },
            },
        }
    }
    Ok(false)
}

/// Reads a command line.
///
/// Gives the options, each with its argument, and the operands in their
/// order. An option that takes an argument and has a default that is not
/// empty counts as given with that default until the command line gives it.
/// The command line is refused where it names a letter that is no option, or
/// ends where an option wants its argument.
pub fn get_opt_per<'a>(args: &'a [String], opt_check: &OptCheck<'a>) -> (r: Result<
    (HashMap<u8, &'a str>, Vec<&'a str>),
    OptError,
>)
    ensures
        reads_as(r, parse(opt_check@, bytes_of(args@))),
{
    let ghost table = opt_check@;
    let ghost all = bytes_of(args@);
    let mut options: HashMap<u8, &'a str> = HashMap::new();
    let mut operands: Vec<&'a str> = Vec::new();
    let mut k: u8 = 0;
    loop
        invariant_except_break
            table == opt_check@,
            option_bytes(options@) == defaults_below(table, k as int),
        ensures
            option_bytes(options@) == defaults(table),
        decreases 255 - k,
    {
        let ghost before = option_bytes(options@);
        if let Some(entry) = opt_check.get(&k) {
            if let OptArg::Mandatory(d) = entry.0 {
                if !d.is_empty() {
                    options.insert(k, d);
                    assert(option_bytes(options@) =~= before.insert(k, encode_utf8(d@)));
                }
            }
        }
        if k == 255 {
            break ;
        }
        k += 1;
    }
    assert(operand_bytes(operands@) =~= Seq::empty());

    let mut i: usize = 0;
    while i < args.len()
        invariant
            i <= args.len(),
            table == opt_check@,
            all == bytes_of(args@),
            parse(table, all) == parse_from(
                table,
                all,
                i as int,
                option_bytes(options@),
                operand_bytes(operands@),
            ),
        decreases args.len() - i,
    {
        let arg: &'a str = args[i].as_str();
        let b = arg.as_bytes();
        if b.len() == 2 && b[0] == 45 && b[1] == 45 {
            let ghost start = operand_bytes(operands@);
            let mut j: usize = i + 1;
            while j < args.len()
                invariant
                    i < j <= args.len(),
                    all == bytes_of(args@),
                    operand_bytes(operands@) == start + all.subrange(i + 1, j as int),
                decreases args.len() - j,
            {
                operands.push(args[j].as_str());
                assert(start + all.subrange(i + 1, j + 1) =~= (start + all.subrange(
                    i + 1,
                    j as int,
                )).push(all[j as int]));
                j += 1;
            }
            return Ok((options, operands));
        }
        if b.len() >= 2 && b[0] == 45 {
            let next: Option<&'a str> = if i + 1 < args.len() {
                Some(args[i + 1].as_str())
            } else {
                None
            };
            match scan_options(opt_check, arg, next, &mut options) {
                Ok(beyond) => {
                    if beyond {
                        i += 1;
                    }
                },
                Err(e) => {
                    return Err(e);
                },
            }
        } else {
            let ghost before = operand_bytes(operands@);
            operands.push(arg);
            assert(operand_bytes(operands@) =~= before.push(all[i as int]));
        }
        i += 1;
    }
    Ok((options, operands))
}

} // verus!
