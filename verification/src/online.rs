use vstd::prelude::*;

use crate::conencode::Matrix;
use crate::gnd::prop::{spec_class_name, CLASS_COUNT};
use crate::gnd::{Ground, Item};
use crate::grids::{area_fits, normalize_pos, spec_normalize_pos, Coord, Crd, CrdI};
use crate::plate::{cell_index, index_of, Plate};

verus! {

/// A white-space character as `char::is_whitespace` has it (Unicode `White_Space`).
pub open spec fn is_white(c: char) -> bool {
    let u = c as u32;
    (9 <= u <= 13) || u == 32 || u == 0x85 || u == 0xA0 || u == 0x1680 || (0x2000 <= u <= 0x200A) || u == 0x2028 || u == 0x2029
        || u == 0x202F || u == 0x205F || u == 0x3000
}

/// An ASCII white-space character as `u8::is_ascii_whitespace` has it: space, tab, line feed,
/// form feed and carriage return.
pub open spec fn is_ascii_white(c: char) -> bool {
    c == ' ' || c == '\t' || c == '\n' || c == '\x0C' || c == '\r'
}

/// How many white-space characters `s` starts with.
pub open spec fn leading_white(s: Seq<char>) -> nat
    decreases s.len(),
{
    if s.len() == 0 || !is_white(s[0]) {
        0
    } else {
        1 + leading_white(s.drop_first())
    }
}

/// How many characters other than ASCII white space `s` starts with.
pub open spec fn word_len(s: Seq<char>) -> nat
    decreases s.len(),
{
    if s.len() == 0 || is_ascii_white(s[0]) {
        0
    } else {
        1 + word_len(s.drop_first())
    }
}

/// A word is no longer than what it starts, and one starts wherever the first character is not white.
pub proof fn lemma_word_len(s: Seq<char>)
    ensures
        word_len(s) <= s.len(),
        s.len() > 0 && !is_ascii_white(s[0]) ==> word_len(s) >= 1,
    decreases s.len(),
{
    if s.len() > 0 && !is_ascii_white(s[0]) {
        lemma_word_len(s.drop_first());
    }
}

/// The words of `s`: its longest runs of characters other than ASCII white space, in order.
pub open spec fn tokens(s: Seq<char>) -> Seq<Seq<char>>
    decreases s.len(),
{
    if s.len() == 0 {
        Seq::empty()
    } else if is_ascii_white(s[0]) {
        tokens(s.drop_first())
    } else {
        let w = word_len(s);
        proof {
            lemma_word_len(s);
        }
        seq![s.take(w as int)] + tokens(s.skip(w as int))
    }
}

/// The first position `i`, from `from` on, where `s` holds a carriage return and a line feed.
pub open spec fn find_crlf(s: Seq<char>, from: int) -> Option<int>
    decreases s.len() - from,
{
    if from < 0 || from + 1 >= s.len() {
        None
    } else if s[from] == '\r' && s[from + 1] == '\n' {
        Some(from)
    } else {
        find_crlf(s, from + 1)
    }
}

/// The next command in `s` after its leading white space: `Ok(None)` while it is not complete,
/// `Err(())` when it starts with a character that is not ASCII. A `/` starts a line command
/// ended by a carriage return and a line feed, whose first word is the command and whose other
/// words its arguments; any other character is a command of its own. The last part is what
/// follows the command.
pub open spec fn spec_split(s: Seq<char>) -> Result<Option<(Seq<char>, Seq<Seq<char>>, Seq<char>)>, ()> {
    let t = s.skip(leading_white(s) as int);
    if t.len() == 0 {
        Ok(None)
    } else if t[0] as u32 >= 128 {
        Err(())
    } else if t[0] == '/' {
        let rest = t.drop_first();
        match find_crlf(rest, 0) {
            None => Ok(None),
            Some(i) => {
                let line = rest.take(i);
                let words = tokens(line);
                if words.len() > 0 {
                    Ok(Some((words[0], words.drop_first(), rest.skip(i + 2))))
                } else {
                    Ok(Some((line, words, rest.skip(i + 2))))
                }
            },
        }
    } else {
        Ok(Some((t.take(1), Seq::empty(), t.skip(1))))
    }
}

/// The views of a list of string slices.
pub open spec fn views(v: Seq<&str>) -> Seq<Seq<char>> {
    v.map_values(|x: &str| x@)
}

/// `char::is_whitespace`.
fn char_is_white(c: char) -> (r: bool)
    ensures
        r == is_white(c),
{
    let u = c as u32;
    (9 <= u && u <= 13) || u == 32 || u == 0x85 || u == 0xA0 || u == 0x1680 || (0x2000 <= u && u <= 0x200A) || u == 0x2028
        || u == 0x2029 || u == 0x202F || u == 0x205F || u == 0x3000
}

/// `u8::is_ascii_whitespace`, on a character.
fn char_is_ascii_white(c: char) -> (r: bool)
    ensures
        r == is_ascii_white(c),
{
    c == ' ' || c == '\t' || c == '\n' || c == '\x0C' || c == '\r'
}

/// Where the white space at the start of `s[from..]` ends.
fn skip_white(s: &str, from: usize, n: usize) -> (r: usize)
    requires
        n == s@.len(),
        from <= n,
    ensures
        from <= r <= n,
        r - from == leading_white(s@.skip(from as int)),
{
    let mut i = from;
    while i < n && char_is_white(s.get_char(i))
        invariant
            n == s@.len(),
            from <= i <= n,
            leading_white(s@.skip(from as int)) == (i - from) + leading_white(s@.skip(i as int)),
        decreases n - i,
    {
        proof {
            assert(s@.skip(i as int).drop_first() =~= s@.skip(i + 1));
        }
        i = i + 1;
    }
    i
}

/// The words of `s[from..to]`, each a slice of `s`.
fn split_words<'a>(s: &'a str, from: usize, to: usize) -> (r: Vec<&'a str>)
    requires
        from <= to <= s@.len(),
    ensures
        views(r@) == tokens(s@.subrange(from as int, to as int)),
{
    let mut out: Vec<&'a str> = Vec::new();
    let mut k = from;
    while k < to
        invariant
            from <= k <= to <= s@.len(),
            views(out@) + tokens(s@.subrange(k as int, to as int)) == tokens(s@.subrange(from as int, to as int)),
        decreases to - k,
    {
        let ghost rest = s@.subrange(k as int, to as int);
        if char_is_ascii_white(s.get_char(k)) {
            proof {
                assert(rest.drop_first() =~= s@.subrange(k + 1, to as int));
            }
            k = k + 1;
        } else {
            let mut e = k + 1;
            proof {
                assert(rest.drop_first() =~= s@.subrange(k + 1, to as int));
            }
            while e < to && !char_is_ascii_white(s.get_char(e))
                invariant
                    k < e <= to <= s@.len(),
                    rest == s@.subrange(k as int, to as int),
                    word_len(rest) == (e - k) + word_len(s@.subrange(e as int, to as int)),
                decreases to - e,
            {
                proof {
                    assert(s@.subrange(e as int, to as int).drop_first() =~= s@.subrange(e + 1, to as int));
                }
                e = e + 1;
            }
            proof {
                let w = word_len(rest);
                assert(w == e - k);
                assert(rest.take(w as int) =~= s@.subrange(k as int, e as int));
                assert(rest.skip(w as int) =~= s@.subrange(e as int, to as int));
                assert(tokens(rest) == seq![rest.take(w as int)] + tokens(rest.skip(w as int)));
            }
            let word = s.substring_char(k, e);
            let ghost before = out@;
            out.push(word);
            proof {
                assert(views(out@) =~= views(before).push(word@));
                assert(views(out@) + tokens(s@.subrange(e as int, to as int)) =~= views(before) + tokens(rest));
            }
            k = e;
        }
    }
    proof {
        assert(s@.subrange(k as int, to as int) =~= Seq::<char>::empty());
        assert(views(out@) + Seq::<Seq<char>>::empty() =~= views(out@));
    }
    out
}

/// Where the first carriage return and line feed in `s[from..]` start.
fn find_line_end(s: &str, from: usize, n: usize) -> (r: Option<usize>)
    requires
        n == s@.len(),
        from <= n,
    ensures
        match r {
            Some(j) => from <= j && j + 2 <= n && find_crlf(s@.skip(from as int), 0) == Some(j - from),
            None => find_crlf(s@.skip(from as int), 0) is None,
        },
{
    let ghost t = s@.skip(from as int);
    let mut j = from;
    while j < n && j + 1 < n
        invariant
            n == s@.len(),
            from <= j <= n,
            t == s@.skip(from as int),
            find_crlf(t, 0) == find_crlf(t, j - from),
        decreases n - j,
    {
        if s.get_char(j) == '\r' && s.get_char(j + 1) == '\n' {
            return Some(j);
        }
        j = j + 1;
    }
    None
}

/// Splits off the next command of `command`, as `spec_split` says: `Ok(None)` while it is not
/// complete, `Err(())` when its first character is not ASCII; otherwise the command, its
/// arguments and the rest.
pub fn split_next_command<'a>(command: &'a str) -> (r: Result<Option<(&'a str, Vec<&'a str>, &'a str)>, ()>)
    ensures
        match (r, spec_split(command@)) {
            (Ok(None), Ok(None)) => true,
            (Err(()), Err(())) => true,
            (Ok(Some((c, a, rest))), Ok(Some((sc, sa, srest)))) => c@ == sc && views(a@) == sa && rest@ == srest,
            _ => false,
        },
{
    let n = command.unicode_len();
    let i = skip_white(command, 0, n);
    let ghost s = command@;
    let ghost t = s.skip(leading_white(s) as int);
    proof {
        assert(s.skip(0) =~= s);
        assert(t =~= s.skip(i as int));
    }
    if i == n {
        return Ok(None);
    }
    let ch = command.get_char(i);
    if (ch as u32) >= 128 {
        return Err(());
    }
    if ch == '/' {
        proof {
            assert(t.drop_first() =~= s.skip(i + 1));
        }
        match find_line_end(command, i + 1, n) {
            None => Ok(None),
            Some(j) => {
                let words = split_words(command, i + 1, j);
                let remain = command.substring_char(j + 2, n);
                let ghost rest = t.drop_first();
                let ghost k = j - (i + 1);
                proof {
                    assert(find_crlf(rest, 0) == Some(k));
                    assert(rest.take(k) =~= s.subrange(i + 1, j as int));
                    assert(rest.skip(k + 2) =~= s.subrange(j + 2, n as int));
                    assert(views(words@) == tokens(rest.take(k)));
                }
                if words.len() > 0 {
                    let mut args = words;
                    let head = args.remove(0);
                    proof {
                        assert(views(args@) =~= views(words@).drop_first());
                        assert(views(words@)[0] == head@);
                    }
                    Ok(Some((head, args, remain)))
                } else {
                    let line = command.substring_char(i + 1, j);
                    Ok(Some((line, words, remain)))
                }
            },
        }
    } else {
        let cmd = command.substring_char(i, i + 1);
        let remain = command.substring_char(i + 1, n);
        proof {
            assert(t.take(1) =~= s.subrange(i as int, i + 1));
            assert(t.skip(1) =~= s.subrange(i + 1, n as int));
            assert(views(Seq::<&str>::empty()) =~= Seq::<Seq<char>>::empty());
        }
        Ok(Some((cmd, Vec::new(), remain)))
    }
}

} // verus!

verus! {

/// A decimal digit.
pub open spec fn is_digit(c: char) -> bool {
    48 <= c as u32 <= 57
}

pub open spec fn digit_of(c: char) -> nat {
    (c as u32 - 48) as nat
}

pub open spec fn all_digits(s: Seq<char>) -> bool {
    forall|i: int| 0 <= i < s.len() ==> #[trigger] is_digit(s[i])
}

/// The number the decimal digits `s` write.
pub open spec fn digits_value(s: Seq<char>) -> nat
    decreases s.len(),
{
    if s.len() == 0 {
        0
    } else {
        digits_value(s.drop_last()) * 10 + digit_of(s.last())
    }
}

/// `s` without a leading `+` or, where `minus` is set, `-`.
pub open spec fn unsigned_part(s: Seq<char>, minus: bool) -> Seq<char> {
    if s.len() > 0 && (s[0] == '+' || (minus && s[0] == '-')) {
        s.drop_first()
    } else {
        s
    }
}

/// `str::parse::<u32>`: an optional `+`, then one or more decimal digits whose value fits.
pub open spec fn spec_parse_u32(s: Seq<char>) -> Option<u32> {
    let d = unsigned_part(s, false);
    if d.len() > 0 && all_digits(d) && digits_value(d) <= u32::MAX {
        Some(digits_value(d) as u32)
    } else {
        None
    }
}

/// `str::parse::<isize>`: an optional `+` or `-`, then one or more decimal digits whose value,
/// with its sign, fits.
pub open spec fn spec_parse_isize(s: Seq<char>) -> Option<isize> {
    let d = unsigned_part(s, true);
    let v = digits_value(d) as int;
    if d.len() == 0 || !all_digits(d) {
        None
    } else if s[0] == '-' {
        if -v >= isize::MIN { Some((-v) as isize) } else { None }
    } else {
        if v <= isize::MAX { Some(v as isize) } else { None }
    }
}

/// The value of the digits `s[from..to]`, or `u64::MAX` where it is larger; `None` unless
/// there is at least one character and all are digits.
fn digits_capped(s: &str, from: usize, to: usize) -> (r: Option<u64>)
    requires
        from <= to <= s@.len(),
    ensures
        ({
            let d = s@.subrange(from as int, to as int);
            &&& r is Some <==> d.len() > 0 && all_digits(d)
            &&& r matches Some(v) ==> v as int == if digits_value(d) < u64::MAX { digits_value(d) as int } else { u64::MAX as int }
        }),
{
    if from == to {
        return None;
    }
    let ghost d = s@.subrange(from as int, to as int);
    let cap: u128 = 0xFFFF_FFFF_FFFF_FFFF;
    let mut acc: u128 = 0;
    let mut i = from;
    while i < to
        invariant
            from <= i <= to <= s@.len(),
            d == s@.subrange(from as int, to as int),
            cap == u64::MAX,
            all_digits(s@.subrange(from as int, i as int)),
            acc as int == if digits_value(s@.subrange(from as int, i as int)) < cap { digits_value(s@.subrange(from as int, i as int)) as int } else { cap as int },
        decreases to - i,
    {
        let c = s.get_char(i);
        let u = c as u32;
        if u < 48 || u > 57 {
            proof {
                assert(d[i - from] == c);
                assert(!is_digit(d[i - from]));
            }
            return None;
        }
        proof {
            let p = s@.subrange(from as int, i + 1);
            assert(p.drop_last() =~= s@.subrange(from as int, i as int));
            assert(p.last() == c);
        }
        let next = acc * 10 + (u - 48) as u128;
        acc = if next < cap { next } else { cap };
        i = i + 1;
    }
    proof {
        assert(s@.subrange(from as int, i as int) =~= d);
    }
    Some(acc as u64)
}

/// `str::parse::<u32>`.
pub fn parse_u32(s: &str) -> (r: Option<u32>)
    ensures
        r == spec_parse_u32(s@),
{
    let n = s.unicode_len();
    let from: usize = if n > 0 && s.get_char(0) == '+' { 1 } else { 0 };
    proof {
        assert(unsigned_part(s@, false) =~= s@.subrange(from as int, n as int));
    }
    match digits_capped(s, from, n) {
        Some(v) => if v <= 0xFFFF_FFFF { Some(v as u32) } else { None },
        None => None,
    }
}

/// `str::parse::<isize>`.
pub fn parse_isize(s: &str) -> (r: Option<isize>)
    ensures
        r == spec_parse_isize(s@),
{
    let n = s.unicode_len();
    let first = if n > 0 { s.get_char(0) } else { ' ' };
    let from: usize = if n > 0 && (first == '+' || first == '-') { 1 } else { 0 };
    proof {
        assert(unsigned_part(s@, true) =~= s@.subrange(from as int, n as int));
    }
    match digits_capped(s, from, n) {
        Some(v) => {
            if n > 0 && first == '-' {
                if v <= isize::MAX as u64 {
                    Some(-(v as isize))
                } else if v == isize::MAX as u64 + 1 {
                    Some(isize::MIN)
                } else {
                    None
                }
            } else {
                if v <= isize::MAX as u64 { Some(v as isize) } else { None }
            }
        },
        None => None,
    }
}

/// The code of `c` with ASCII capitals turned into small letters.
pub open spec fn lower_code(c: char) -> u32 {
    if 65 <= c as u32 <= 90 { (c as u32 + 32) as u32 } else { c as u32 }
}

/// `s` is `word`, letter by letter, up to the case of ASCII letters.
pub open spec fn same_ignoring_case(s: Seq<char>, word: Seq<char>) -> bool {
    s.len() == word.len() && forall|i: int| 0 <= i < s.len() ==> lower_code(#[trigger] s[i]) == word[i] as u32
}

/// `s` reads exactly `word`.
fn same_text(s: &str, word: &str) -> (r: bool)
    ensures
        r == (s@ == word@),
{
    let n = s.unicode_len();
    if n != word.unicode_len() {
        return false;
    }
    let mut i: usize = 0;
    while i < n
        invariant
            n == s@.len() == word@.len(),
            i <= n,
            forall|j: int| 0 <= j < i ==> s@[j] == word@[j],
        decreases n - i,
    {
        if s.get_char(i) != word.get_char(i) {
            return false;
        }
        i = i + 1;
    }
    proof {
        assert(s@ =~= word@);
    }
    true
}

/// `s` reads `word` up to the case of ASCII letters.
fn same_text_ignoring_case(s: &str, word: &str) -> (r: bool)
    ensures
        r == same_ignoring_case(s@, word@),
{
    let n = s.unicode_len();
    if n != word.unicode_len() {
        return false;
    }
    let mut i: usize = 0;
    while i < n
        invariant
            n == s@.len() == word@.len(),
            i <= n,
            forall|j: int| 0 <= j < i ==> lower_code(#[trigger] s@[j]) == word@[j] as u32,
        decreases n - i,
    {
        let u = s.get_char(i) as u32;
        let low = if 65 <= u && u <= 90 { u + 32 } else { u };
        if low != word.get_char(i) as u32 {
            return false;
        }
        i = i + 1;
    }
    true
}

} // verus!

verus! {

/// What a player sees.
#[derive(Clone, Copy, Debug, PartialEq, Eq, Structural)]
pub enum Mode {
    /// The watched area is drawn every turn.
    Monitor,
    /// Nothing is drawn.
    Blind,
}

/// A command that reads the world, run as soon as it is read.
#[derive(Clone, Copy, Debug)]
pub enum ConstCommand {
    /// `light <x> <y>`: sets the cell on fire.
    Light { pos: Crd },
    /// `mode <blind|monitor>`.
    Mode { mode: Mode },
    Get {},
}

/// A command that changes the world, run when the world may be changed.
#[derive(Clone, Copy, Debug)]
pub enum MutCommand {
    /// `set element <value> <x> <y>`.
    SetElement { pos: Crd, value: u32 },
}

#[derive(Clone, Copy, Debug)]
pub enum Command {
    Const(ConstCommand),
    Mut(MutCommand),
}

/// The command that `cmd` with `args` reads as, or `Err(())`; extra arguments are ignored.
pub open spec fn spec_parse_command(cmd: Seq<char>, args: Seq<Seq<char>>) -> Result<Command, ()> {
    if cmd == "set"@ {
        if args.len() >= 4 && args[0] == "element"@ {
            match (spec_parse_u32(args[1]), spec_parse_isize(args[2]), spec_parse_isize(args[3])) {
                (Some(value), Some(x), Some(y)) => Ok(Command::Mut(MutCommand::SetElement { pos: Coord(x, y), value })),
                _ => Err(()),
            }
        } else {
            Err(())
        }
    } else if cmd == "light"@ {
        if args.len() >= 2 {
            match (spec_parse_isize(args[0]), spec_parse_isize(args[1])) {
                (Some(x), Some(y)) => Ok(Command::Const(ConstCommand::Light { pos: Coord(x, y) })),
                _ => Err(()),
            }
        } else {
            Err(())
        }
    } else if cmd == "mode"@ {
        if args.len() >= 1 && same_ignoring_case(args[0], "blind"@) {
            Ok(Command::Const(ConstCommand::Mode { mode: Mode::Blind }))
        } else if args.len() >= 1 && same_ignoring_case(args[0], "monitor"@) {
            Ok(Command::Const(ConstCommand::Mode { mode: Mode::Monitor }))
        } else {
            Err(())
        }
    } else {
        Err(())
    }
}

/// Reads a command and its arguments (see `spec_parse_command`). The mode's name is compared
/// up to the case of ASCII letters, which is what `str::to_lowercase` does for words without
/// a `k`.
pub fn parse_command(cmd: &str, args: &Vec<&str>) -> (r: Result<Command, ()>)
    ensures
        r == spec_parse_command(cmd@, views(args@)),
{
    let ghost a = views(args@);
    proof {
        assert(forall|i: int| 0 <= i < args@.len() ==> a[i] == (#[trigger] args@[i])@);
    }
    if same_text(cmd, "set") {
        if args.len() >= 4 && same_text(args[0], "element") {
            let value = parse_u32(args[1]);
            let x = parse_isize(args[2]);
            let y = parse_isize(args[3]);
            match (value, x, y) {
                (Some(value), Some(x), Some(y)) => Ok(Command::Mut(MutCommand::SetElement { pos: Coord(x, y), value })),
                _ => Err(()),
            }
        } else {
            Err(())
        }
    } else if same_text(cmd, "light") {
        if args.len() >= 2 {
            let x = parse_isize(args[0]);
            let y = parse_isize(args[1]);
            match (x, y) {
                (Some(x), Some(y)) => Ok(Command::Const(ConstCommand::Light { pos: Coord(x, y) })),
                _ => Err(()),
            }
        } else {
            Err(())
        }
    } else if same_text(cmd, "mode") {
        if args.len() >= 1 && same_text_ignoring_case(args[0], "blind") {
            Ok(Command::Const(ConstCommand::Mode { mode: Mode::Blind }))
        } else if args.len() >= 1 && same_text_ignoring_case(args[0], "monitor") {
            Ok(Command::Const(ConstCommand::Mode { mode: Mode::Monitor }))
        } else {
            Err(())
        }
    } else {
        Err(())
    }
}

/// The commands read off `s` one after the other, those that do not read as a command left
/// out, and what is left of `s` once no complete command remains; `Err(())` where a command
/// starts with a character that is not ASCII.
pub open spec fn spec_read_commands(s: Seq<char>) -> Result<(Seq<Command>, Seq<char>), ()>
    decreases s.len(),
{
    match spec_split(s) {
        Err(()) => Err(()),
        Ok(None) => Ok((Seq::empty(), s)),
        Ok(Some((cmd, args, rest))) => {
            proof {
                lemma_split_shorter(s);
            }
            match spec_read_commands(rest) {
                Err(()) => Err(()),
                Ok((cmds, left)) => match spec_parse_command(cmd, args) {
                    Ok(c) => Ok((seq![c] + cmds, left)),
                    Err(()) => Ok((cmds, left)),
                },
            }
        },
    }
}

/// What follows a command is shorter than the text it was split from.
pub proof fn lemma_split_shorter(s: Seq<char>)
    ensures
        spec_split(s) matches Ok(Some((c, a, rest))) ==> rest.len() < s.len(),
{
    let t = s.skip(leading_white(s) as int);
    lemma_leading_white(s);
    if t.len() > 0 && t[0] == '/' {
        let rest = t.drop_first();
        lemma_find_crlf(rest, 0);
    }
}

proof fn lemma_leading_white(s: Seq<char>)
    ensures
        leading_white(s) <= s.len(),
    decreases s.len(),
{
    if s.len() > 0 && is_white(s[0]) {
        lemma_leading_white(s.drop_first());
    }
}

proof fn lemma_find_crlf(s: Seq<char>, from: int)
    ensures
        find_crlf(s, from) matches Some(i) ==> from <= i && i + 1 < s.len(),
    decreases s.len() - from,
{
    if from >= 0 && from + 1 < s.len() && !(s[from] == '\r' && s[from + 1] == '\n') {
        lemma_find_crlf(s, from + 1);
    }
}

/// Reads the complete commands of `input` (see `spec_read_commands`), and gives what is left.
pub fn read_commands<'a>(input: &'a str) -> (r: Result<(Vec<Command>, &'a str), ()>)
    ensures
        match (r, spec_read_commands(input@)) {
            (Ok((cmds, left)), Ok((scmds, sleft))) => cmds@ == scmds && left@ == sleft,
            (Err(()), Err(())) => true,
            _ => false,
        },
    decreases input@.len(),
{
    match split_next_command(input) {
        Err(()) => Err(()),
        Ok(None) => Ok((Vec::new(), input)),
        Ok(Some((cmd, args, rest))) => {
            proof {
                lemma_split_shorter(input@);
            }
            match read_commands(rest) {
                Err(()) => Err(()),
                Ok((cmds, left)) => match parse_command(cmd, &args) {
                    Ok(c) => {
                        let mut all = vec![c];
                        let mut more = cmds;
                        all.append(&mut more);
                        Ok((all, left))
                    },
                    Err(()) => Ok((cmds, left)),
                },
            }
        },
    }
}

/// How wide a cell is drawn, in characters.
pub const ELEMENT_DISPLAY_WIDTH: usize = 5;

/// How tall a cell is drawn, in characters.
pub const ELEMENT_DISPLAY_HEIGHT: usize = 1;

/// The `i`-th character of a cell drawn for `name`: the name's own, or a space past its end.
pub open spec fn texture_char(name: Seq<char>, i: int) -> char {
    if i < name.len() { name[i] } else { ' ' }
}

fn texture_at(name: &str, n: usize, i: usize) -> (r: char)
    requires
        n == name@.len(),
    ensures
        r == texture_char(name@, i as int),
{
    if i < n { name.get_char(i) } else { ' ' }
}

/// How a cell named `name` is drawn: the first five characters of the name, padded with spaces.
pub fn resource(name: &String, phase: usize) -> (r: [[char; ELEMENT_DISPLAY_HEIGHT]; ELEMENT_DISPLAY_WIDTH])
    ensures
        forall|i: int| 0 <= i < 5 ==> (#[trigger] r@[i])@ == seq![texture_char(name@, i)],
{
    let s = name.as_str();
    let n = s.unicode_len();
    let r = [[texture_at(s, n, 0)], [texture_at(s, n, 1)], [texture_at(s, n, 2)], [texture_at(s, n, 3)], [texture_at(s, n, 4)]];
    proof {
        assert forall|i: int| 0 <= i < 5 implies (#[trigger] r@[i])@ =~= seq![texture_char(name@, i)] by {}
    }
    r
}

/// The name a cell is drawn with: its ground's name, or `?` for a plant of no known class.
pub open spec fn cell_name(g: Ground) -> Seq<char> {
    match g.item {
        Item::Air => "air"@,
        Item::Plant(p) => if p.kind < CLASS_COUNT { spec_class_name(p.kind) } else { "?"@ },
    }
}

fn name_of(g: &Ground) -> (r: String)
    ensures
        r@ == cell_name(*g),
{
    match &g.item {
        Item::Plant(p) => {
            if p.kind >= CLASS_COUNT {
                return String::from_str("?");
            }
        },
        Item::Air => {},
    }
    g.to_string()
}

/// The ground of the cell the position `(x, y)` comes to on the plate, going around its edges.
pub open spec fn watched_ground(plate: Plate, x: int, y: int) -> Ground {
    let q = spec_normalize_pos(plate.size, Coord(x as isize, y as isize));
    plate.blocks@[cell_index(plate.size, q.0 as int, q.1 as int)].ground
}

/// The character drawn at place `k` of the view of `a`, counted row by row: each row holds
/// `ELEMENT_DISPLAY_WIDTH` characters for each cell of a row of `a`.
pub open spec fn view_char(plate: Plate, a: CrdI, k: int) -> char {
    let w = (a.0.to - a.0.from + 1) * 5;
    let dy = k / w;
    let col = k % w;
    texture_char(cell_name(watched_ground(plate, a.0.from + col / 5, a.1.from + dy)), col % 5)
}

/// Where the place `dy * w + dx * 5 + i` of a view falls.
proof fn lemma_view_index(w: int, dy: int, dx: int, i: int)
    requires
        w > 0,
        w % 5 == 0,
        0 <= dy,
        0 <= dx,
        dx * 5 + i < w,
        0 <= i < 5,
    ensures
        (dy * w + dx * 5 + i) / w == dy,
        (dy * w + dx * 5 + i) % w == dx * 5 + i,
        (dx * 5 + i) / 5 == dx,
        (dx * 5 + i) % 5 == i,
{
    vstd::arithmetic::div_mod::lemma_fundamental_div_mod_converse(dy * w + dx * 5 + i, w, dy, dx * 5 + i);
    vstd::arithmetic::div_mod::lemma_fundamental_div_mod_converse(dx * 5 + i, 5, dx, i);
}

/// What a player watching the area `a` sees: each cell of `a`, row by row, drawn as the first
/// `ELEMENT_DISPLAY_WIDTH` characters of its name, padded with spaces.
pub fn watch_view(plate: &Plate, a: CrdI) -> (r: Matrix<char>)
    requires
        plate.wf(),
        area_fits(plate.size, a),
        (a.0.to - a.0.from + 1) * 5 * (a.1.to - a.1.from + 1) <= usize::MAX,
    ensures
        r.wf(),
        r.size == Coord(((a.0.to - a.0.from + 1) * 5) as isize, (a.1.to - a.1.from + 1) as isize),
        forall|dx: int, dy: int, i: int|
            0 <= dx <= a.0.to - a.0.from && 0 <= dy <= a.1.to - a.1.from && 0 <= i < 5 ==> #[trigger] r.cell(dx * 5 + i, dy)
                == texture_char(cell_name(watched_ground(*plate, a.0.from + dx, a.1.from + dy)), i),
{
    let size = plate.size;
    let cols = a.0.to - a.0.from + 1;
    let rows = a.1.to - a.1.from + 1;
    let w = cols * 5;
    let ghost wi = w as int;
    let mut data: Vec<char> = Vec::new();
    let mut dy: isize = 0;
    while dy < rows
        invariant
            plate.wf(),
            size == plate.size,
            area_fits(size, a),
            cols == a.0.to - a.0.from + 1,
            rows == a.1.to - a.1.from + 1,
            w == cols * 5,
            wi == w,
            cols * 5 * rows <= usize::MAX,
            0 <= dy <= rows,
            data@.len() == dy * wi,
            forall|k: int| 0 <= k < data@.len() ==> #[trigger] data@[k] == view_char(*plate, a, k),
        decreases rows - dy,
    {
        let mut dx: isize = 0;
        while dx < cols
            invariant
                plate.wf(),
                size == plate.size,
                area_fits(size, a),
                cols == a.0.to - a.0.from + 1,
                rows == a.1.to - a.1.from + 1,
                w == cols * 5,
                wi == w,
                cols * 5 * rows <= usize::MAX,
                0 <= dy < rows,
                0 <= dx <= cols,
                data@.len() == dy * wi + dx * 5,
                forall|k: int| 0 <= k < data@.len() ==> #[trigger] data@[k] == view_char(*plate, a, k),
            decreases cols - dx,
        {
            let q = normalize_pos(size, Coord(a.0.from + dx, a.1.from + dy));
            let idx = index_of(size, q.0, q.1);
            let name = name_of(&plate.blocks[idx].ground);
            let s = name.as_str();
            let n = s.unicode_len();
            let mut i: usize = 0;
            while i < 5
                invariant
                    cols == a.0.to - a.0.from + 1,
                    rows == a.1.to - a.1.from + 1,
                    0 <= dy < rows,
                    0 <= dx < cols,
                    w == cols * 5,
                    wi == w,
                    i <= 5,
                    n == s@.len(),
                    s@ == cell_name(watched_ground(*plate, a.0.from + dx, a.1.from + dy)),
                    data@.len() == dy * wi + dx * 5 + i,
                    forall|k: int| 0 <= k < data@.len() ==> #[trigger] data@[k] == view_char(*plate, a, k),
                decreases 5 - i,
            {
                let c = texture_at(s, n, i);
                proof {
                    lemma_view_index(wi, dy as int, dx as int, i as int);
                }
                let ghost k = data@.len() as int;
                data.push(c);
                proof {
                    assert(k == dy * wi + dx * 5 + i);
                    assert(data@[k] == view_char(*plate, a, k));
                }
                i = i + 1;
            }
            dx = dx + 1;
        }
        proof {
            assert(dy * wi + cols * 5 == (dy + 1) * wi) by (nonlinear_arith)
                requires wi == cols * 5;
        }
        dy = dy + 1;
    }
    let r = Matrix { size: Coord(w, rows), data };
    proof {
        assert(rows * wi == cols * 5 * rows) by (nonlinear_arith)
            requires wi == cols * 5;
        assert forall|dx: int, dy: int, i: int|
            0 <= dx <= a.0.to - a.0.from && 0 <= dy <= a.1.to - a.1.from && 0 <= i < 5 implies #[trigger] r.cell(dx * 5 + i, dy)
                == texture_char(cell_name(watched_ground(*plate, a.0.from + dx, a.1.from + dy)), i) by {
            lemma_view_index(wi, dy, dx, i);
            assert(dy * wi + dx * 5 + i < rows * wi) by (nonlinear_arith)
                requires dy < rows, dx * 5 + i < wi, 0 <= dx, 0 <= i;
            assert(r.cell(dx * 5 + i, dy) == data@[dy * wi + dx * 5 + i]);
        }
    }
    r
}

/// The most bytes that may wait to be written to a player.
pub const OUTPUT_BUFFER_MAX_SIZE: usize = 1048576;

/// The bytes `\r\n< ` that start an answer shown to a player.
pub open spec fn answer_mark() -> Seq<u8> {
    seq![13u8, 10u8, 60u8, 32u8]
}

/// The bytes `\r\n> ` that start the echo of a player's unfinished input.
pub open spec fn input_mark() -> Seq<u8> {
    seq![13u8, 10u8, 62u8, 32u8]
}

/// The answers, each after an answer mark.
pub open spec fn answers_text(answers: Seq<Seq<u8>>) -> Seq<u8>
    decreases answers.len(),
{
    if answers.len() == 0 {
        Seq::empty()
    } else {
        answers_text(answers.drop_last()) + answer_mark() + answers.last()
    }
}

/// What a player is sent: the view, then the answers, then the unfinished input, if any,
/// after an input mark.
pub open spec fn output_text(view: Seq<u8>, answers: Seq<Seq<u8>>, input: Seq<u8>) -> Seq<u8> {
    view + answers_text(answers) + (if input.len() > 0 { input_mark() + input } else { Seq::empty() })
}

fn push_mark(data: &mut Vec<u8>, third: u8)
    ensures
        final(data)@ == old(data)@ + seq![13u8, 10u8, third, 32u8],
{
    data.push(13u8);
    data.push(10u8);
    data.push(third);
    data.push(32u8);
    proof {
        assert(final(data)@ =~= old(data)@ + seq![13u8, 10u8, third, 32u8]);
    }
}

/// Joins what a player is sent: `view`, each answer after `\r\n< `, and the unfinished
/// `input`, if any, after `\r\n> `.
pub fn compose_output(view: Vec<u8>, answers: Vec<Vec<u8>>, input: &Vec<u8>) -> (r: Vec<u8>)
    ensures
        r@ == output_text(view@, answers@.map_values(|a: Vec<u8>| a@), input@),
{
    let ghost av = answers@.map_values(|a: Vec<u8>| a@);
    let mut data = view;
    let ghost v0 = data@;
    let mut rest = answers;
    let ghost all = rest@;
    let n = rest.len();
    let mut i: usize = 0;
    while i < n
        invariant
            n == all.len(),
            av == all.map_values(|a: Vec<u8>| a@),
            i <= n,
            rest@ == all.subrange(i as int, n as int),
            data@ == v0 + answers_text(av.subrange(0, i as int)),
        decreases n - i,
    {
        proof {
            assert(av.subrange(0, i + 1).drop_last() =~= av.subrange(0, i as int));
            assert(rest@[0] == all[i as int]);
        }
        let mut a = rest.remove(0);
        push_mark(&mut data, 60u8);
        data.append(&mut a);
        proof {
            assert(rest@ =~= all.subrange(i + 1, n as int));
            assert(av.subrange(0, i + 1).last() == all[i as int]@);
            assert(data@ =~= v0 + answers_text(av.subrange(0, i + 1)));
        }
        i = i + 1;
    }
    proof {
        assert(av.subrange(0, n as int) =~= av);
    }
    if input.len() > 0 {
        push_mark(&mut data, 62u8);
        let mut copy = bytes_copy(input);
        data.append(&mut copy);
        proof {
            assert(data@ =~= output_text(v0, av, input@));
        }
    } else {
        proof {
            assert(data@ =~= output_text(v0, av, input@));
        }
    }
    data
}

fn bytes_copy(v: &Vec<u8>) -> (r: Vec<u8>)
    ensures
        r@ == v@,
{
    let mut r: Vec<u8> = Vec::new();
    let mut i: usize = 0;
    while i < v.len()
        invariant
            i <= v@.len(),
            r@ == v@.subrange(0, i as int),
        decreases v@.len() - i,
    {
        r.push(v[i]);
        i = i + 1;
        proof {
            assert(r@ =~= v@.subrange(0, i as int));
        }
    }
    proof {
        assert(v@.subrange(0, i as int) =~= v@);
    }
    r
}

/// Queues `data` after what waits to be written to a player. It is refused, and nothing
/// changes, when more than `OUTPUT_BUFFER_MAX_SIZE` bytes would then wait.
pub fn queue_output(buffer: &mut Vec<u8>, data: Vec<u8>) -> (r: Result<(), ()>)
    ensures
        old(buffer)@.len() + data@.len() > OUTPUT_BUFFER_MAX_SIZE ==> r is Err && final(buffer)@ == old(buffer)@,
        old(buffer)@.len() + data@.len() <= OUTPUT_BUFFER_MAX_SIZE ==> r is Ok && final(buffer)@ == old(buffer)@ + data@,
{
    if data.len() > OUTPUT_BUFFER_MAX_SIZE || buffer.len() > OUTPUT_BUFFER_MAX_SIZE - data.len() {
        return Err(());
    }
    let mut d = data;
    buffer.append(&mut d);
    Ok(())
}

/// Drops the first `n` bytes of what waits to be written, which have been written.
pub fn drop_written(buffer: &mut Vec<u8>, n: usize)
    requires
        n <= old(buffer)@.len(),
    ensures
        final(buffer)@ == old(buffer)@.subrange(n as int, old(buffer)@.len() as int),
{
    let rest = buffer.split_off(n);
    *buffer = rest;
}

} // verus!
