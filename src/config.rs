//! The command line of the terminal front end, and the parsing of card text.
use vstd::prelude::*;
use vstd::string::StrSliceExecFns;

verus! {

/// What the program is asked to do.
#[derive(Debug)]
pub enum Modes {
    Help,
    /// A deadline and the path of a file of cards.
    CreateDeck(String, String),
    /// A deck name and the path of a file of cards to add.
    UpdateDeck(String, String),
    ListDecks,
    /// The name of the deck to review.
    ReviewDeck(String),
}

/// The parsed command line.
#[derive(Debug)]
pub struct Config {
    pub mode: Modes,
}

/// `s` is the word `w`.
fn is_word(s: &String, w: &str) -> (r: bool)
    ensures
        r == (s@ == w@),
{
    let owned = w.to_owned();
    *s == owned
}

impl Config {
    /// Reads the mode from the arguments (the program name first): `help`,
    /// `ls`, `create <deadline> <path>`, `update <deck> <path>` or
    /// `review <deck>`.
    pub fn new(args: &[String]) -> (r: Result<Config, &'static str>)
        ensures
            args@.len() < 2 ==> (r matches Err(e) && e@ == "not enough arguments"@),
            args@.len() >= 2 && args@[1]@ == "help"@ ==> (r matches Ok(c) && c.mode is Help),
            args@.len() >= 2 && args@[1]@ == "ls"@ ==> (r matches Ok(c) && c.mode is ListDecks),
            args@.len() >= 2 && args@[1]@ == "create"@ ==> if args@.len() == 4 {
                r matches Ok(c) && c.mode == Modes::CreateDeck(args@[2], args@[3])
            } else {
                r matches Err(e) && e@ == "wrong number of arguments"@
            },
            args@.len() >= 2 && args@[1]@ == "update"@ ==> if args@.len() == 4 {
                r matches Ok(c) && c.mode == Modes::UpdateDeck(args@[2], args@[3])
            } else {
                r matches Err(e) && e@ == "wrong number of arguments"@
            },
            args@.len() >= 2 && args@[1]@ == "review"@ ==> if args@.len() == 3 {
                r matches Ok(c) && c.mode == Modes::ReviewDeck(args@[2])
            } else {
                r matches Err(e) && e@ == "wrong number of arguments"@
            },
            args@.len() >= 2 && args@[1]@ != "help"@ && args@[1]@ != "ls"@ && args@[1]@
                != "create"@ && args@[1]@ != "update"@ && args@[1]@ != "review"@ ==> (r matches Err(e) && e@
                == "invalid first argument, run help to see options"@),
    {
        proof {
            reveal_strlit("help");
            reveal_strlit("ls");
            reveal_strlit("create");
            reveal_strlit("update");
            reveal_strlit("review");
            assert("create"@[0] != "review"@[0]);
            assert("update"@[0] != "review"@[0]);
            assert("create"@[0] != "update"@[0]);
            assert("help"@.len() != "ls"@.len());
            assert("help"@.len() != "create"@.len());
            assert("ls"@.len() != "create"@.len());
        }
        if args.len() < 2 {
            return Err("not enough arguments");
        }
        let option_string = &args[1];
        let chosen_mode = if is_word(option_string, "help") {
            Modes::Help
        } else if is_word(option_string, "ls") {
            Modes::ListDecks
        } else if is_word(option_string, "create") {
            if args.len() != 4 {
                return Err("wrong number of arguments");
            }
            Modes::CreateDeck(args[2].clone(), args[3].clone())
        } else if is_word(option_string, "update") {
            if args.len() != 4 {
                return Err("wrong number of arguments");
            }
            Modes::UpdateDeck(args[2].clone(), args[3].clone())
        } else if is_word(option_string, "review") {
            if args.len() != 3 {
                return Err("wrong number of arguments");
            }
            Modes::ReviewDeck(args[2].clone())
        } else {
            return Err("invalid first argument, run help to see options");
        };
        Ok(Config { mode: chosen_mode })
    }
}

/// Creates a deck from a name, a deadline and the text of its cards; the
/// deck itself is written by the caller, and this reports success.
pub fn create_deck_from_string(name: String, deadline: String, text: String) -> (r: Result<
    String,
    String,
>)
    ensures
        r matches Ok(s) && s@ == "Deck Created"@,
{
    Ok("Deck Created".to_owned())
}

/// The characters `char::is_whitespace` accepts: Unicode White_Space.
pub open spec fn is_white_space(c: char) -> bool {
    let x = c as u32;
    (0x9 <= x <= 0xd) || x == 0x20 || x == 0x85 || x == 0xa0 || x == 0x1680 || (0x2000 <= x
        <= 0x200a) || x == 0x2028 || x == 0x2029 || x == 0x202f || x == 0x205f || x == 0x3000
}

fn white_space(c: char) -> (r: bool)
    ensures
        r == is_white_space(c),
{
    let x = c as u32;
    (0x9 <= x && x <= 0xd) || x == 0x20 || x == 0x85 || x == 0xa0 || x == 0x1680 || (0x2000 <= x
        && x <= 0x200a) || x == 0x2028 || x == 0x2029 || x == 0x202f || x == 0x205f || x == 0x3000
}

/// Index of the first character of `s` at or after `i` that is not white space.
pub open spec fn trim_start_from(s: Seq<char>, i: int) -> int
    decreases s.len() - i,
{
    if i >= s.len() || !is_white_space(s[i]) {
        i
    } else {
        trim_start_from(s, i + 1)
    }
}

/// One past the last character of `s` before `j` that is not white space,
/// but not below `lo`.
pub open spec fn trim_end_to(s: Seq<char>, lo: int, j: int) -> int
    decreases j - lo,
{
    if j <= lo || !is_white_space(s[j - 1]) {
        j
    } else {
        trim_end_to(s, lo, j - 1)
    }
}

/// `s[lo..hi]` without its leading and trailing white space, as `str::trim` gives.
pub open spec fn trimmed(s: Seq<char>, lo: int, hi: int) -> Seq<char> {
    let a = trim_start_from(s.subrange(0, hi), lo);
    s.subrange(a, trim_end_to(s, a, hi))
}

/// A field of a card line: trimmed, then rid of one leading `-` or `*` (a
/// list bullet) and trimmed again.
pub open spec fn field_text(s: Seq<char>) -> Seq<char> {
    let t = trimmed(s, 0, s.len() as int);
    if t.len() > 0 && (t[0] == '-' || t[0] == '*') {
        trimmed(t, 1, t.len() as int)
    } else {
        t
    }
}

proof fn lemma_trim_bounds(s: Seq<char>, lo: int, hi: int)
    requires
        0 <= lo <= hi <= s.len(),
    ensures
        lo <= trim_start_from(s.subrange(0, hi), lo) <= hi,
        trim_start_from(s.subrange(0, hi), lo) <= trim_end_to(
            s,
            trim_start_from(s.subrange(0, hi), lo),
            hi,
        ) <= hi,
{
    lemma_trim_start_bounds(s.subrange(0, hi), lo);
    lemma_trim_end_bounds(s, trim_start_from(s.subrange(0, hi), lo), hi);
}

proof fn lemma_trim_start_bounds(s: Seq<char>, i: int)
    requires
        0 <= i <= s.len(),
    ensures
        i <= trim_start_from(s, i) <= s.len(),
    decreases s.len() - i,
{
    if i < s.len() && is_white_space(s[i]) {
        lemma_trim_start_bounds(s, i + 1);
    }
}

proof fn lemma_trim_end_bounds(s: Seq<char>, lo: int, j: int)
    requires
        lo <= j,
    ensures
        lo <= trim_end_to(s, lo, j) <= j,
    decreases j - lo,
{
    if j > lo && is_white_space(s[j - 1]) {
        lemma_trim_end_bounds(s, lo, j - 1);
    }
}

/// The bounds of `s[lo..hi]` trimmed.
fn trim_bounds(s: &str, lo: usize, hi: usize) -> (r: (usize, usize))
    requires
        lo <= hi <= s@.len(),
    ensures
        r.0 == trim_start_from(s@.subrange(0, hi as int), lo as int),
        r.1 == trim_end_to(s@, r.0 as int, hi as int),
        lo <= r.0 <= r.1 <= hi,
{
    proof {
        lemma_trim_bounds(s@, lo as int, hi as int);
    }
    let ghost pre = s@.subrange(0, hi as int);
    let mut a = lo;
    while a < hi && white_space(s.get_char(a))
        invariant
            lo <= a <= hi,
            hi <= s@.len(),
            pre == s@.subrange(0, hi as int),
            trim_start_from(pre, a as int) == trim_start_from(pre, lo as int),
        decreases hi - a,
    {
        assert(pre[a as int] == s@[a as int]);
        a = a + 1;
    }
    proof {
        if a < hi {
            assert(pre[a as int] == s@[a as int]);
        }
    }
    let mut z = hi;
    while z > a && white_space(s.get_char(z - 1))
        invariant
            a <= z <= hi,
            hi <= s@.len(),
            trim_end_to(s@, a as int, z as int) == trim_end_to(s@, a as int, hi as int),
        decreases z - a,
    {
        z = z - 1;
    }
    (a, z)
}

/// Cleans one field of a card line: see `field_text`.
pub fn process_field(field: &str) -> (r: String)
    ensures
        r@ == field_text(field@),
{
    let n = field.unicode_len();
    let (a, z) = trim_bounds(field, 0, n);
    proof {
        assert(field@.subrange(0, n as int) =~= field@);
    }
    if a < z {
        let ch = field.get_char(a);
        if ch == '-' || ch == '*' {
            let ghost t = field@.subrange(a as int, z as int);
            let (a2, z2) = trim_bounds(field, a + 1, z);
            proof {
                assert(t.len() > 0 && t[0] == ch);
                let b = trim_start_from(t.subrange(0, t.len() as int), 1);
                assert(t.subrange(0, t.len() as int) =~= t);
                lemma_trim_start_shift(field@, t, a as int, z as int, 1);
                lemma_trim_end_shift(field@, t, a as int, b, t.len() as int);
                assert(t.subrange(b, trim_end_to(t, b, t.len() as int)) =~= field@.subrange(
                    a2 as int,
                    z2 as int,
                ));
            }
            return field.substring_char(a2, z2).to_owned();
        }
    }
    field.substring_char(a, z).to_owned()
}

proof fn lemma_trim_start_shift(s: Seq<char>, t: Seq<char>, a: int, z: int, i: int)
    requires
        0 <= a <= z <= s.len(),
        t == s.subrange(a, z),
        0 <= i <= t.len(),
    ensures
        trim_start_from(t, i) + a == trim_start_from(s.subrange(0, z), a + i),
    decreases t.len() - i,
{
    if i < t.len() {
        assert(t[i] == s.subrange(0, z)[a + i]);
        if is_white_space(t[i]) {
            lemma_trim_start_shift(s, t, a, z, i + 1);
        }
    }
}

proof fn lemma_trim_end_shift(s: Seq<char>, t: Seq<char>, a: int, lo: int, j: int)
    requires
        0 <= a,
        a + t.len() <= s.len(),
        t == s.subrange(a, a + t.len()),
        0 <= lo,
        0 <= j <= t.len(),
    ensures
        trim_end_to(t, lo, j) + a == trim_end_to(s, lo + a, j + a),
    decreases j - lo,
{
    if j > lo {
        assert(t[j - 1] == s[a + j - 1]);
        if is_white_space(t[j - 1]) {
            lemma_trim_end_shift(s, t, a, lo, j - 1);
        }
    }
}

/// A card's two sides as written in a text field.
#[derive(Debug)]
pub struct FieldPair {
    pub front: String,
    pub back: String,
}

/// Non-overlapping occurrences of `>>` in `s` from index `i`, read left to right.
pub open spec fn arrows_from(s: Seq<char>, i: int) -> int
    decreases s.len() - i,
{
    if i < 0 || i + 1 >= s.len() {
        0
    } else if s[i] == '>' && s[i + 1] == '>' {
        1 + arrows_from(s, i + 2)
    } else {
        arrows_from(s, i + 1)
    }
}

/// Where the first `>>` at or after `i` starts, or `s.len()` where none does.
pub open spec fn arrow_at(s: Seq<char>, i: int) -> int
    decreases s.len() - i,
{
    if i < 0 || i + 1 >= s.len() {
        s.len() as int
    } else if s[i] == '>' && s[i + 1] == '>' {
        i
    } else {
        arrow_at(s, i + 1)
    }
}

/// Where the line starting at `i` ends: the next `\n`, or the end.
pub open spec fn line_end(s: Seq<char>, i: int) -> int
    decreases s.len() - i,
{
    if i < 0 || i >= s.len() || s[i] == '\n' {
        if i < 0 {
            0
        } else {
            i
        }
    } else {
        line_end(s, i + 1)
    }
}

/// The line from `i` to `e`, without the `\r` of a `\r\n` ending.
pub open spec fn line_text(s: Seq<char>, i: int, e: int) -> Seq<char> {
    if e < s.len() && e > i && s[e - 1] == '\r' {
        s.subrange(i, e - 1)
    } else {
        s.subrange(i, e)
    }
}

/// The card a line holds: a line with exactly one `>>` gives its two sides.
pub open spec fn card_of_line(line: Seq<char>) -> Option<(Seq<char>, Seq<char>)> {
    if arrows_from(line, 0) == 1 {
        let p = arrow_at(line, 0);
        Some((field_text(line.subrange(0, p)), field_text(line.subrange(p + 2, line.len() as int))))
    } else {
        None
    }
}

/// The cards of the lines of `s` from index `i` on.
pub open spec fn cards_from(s: Seq<char>, i: int) -> Seq<(Seq<char>, Seq<char>)>
    decreases s.len() - i,
{
    if i < 0 || i >= s.len() {
        Seq::empty()
    } else {
        let e = line_end(s, i);
        let rest = if i <= e < s.len() {
            cards_from(s, e + 1)
        } else {
            Seq::empty()
        };
        match card_of_line(line_text(s, i, e)) {
            Some(c) => seq![c] + rest,
            None => rest,
        }
    }
}

pub open spec fn pair_view(p: FieldPair) -> (Seq<char>, Seq<char>) {
    (p.front@, p.back@)
}

proof fn lemma_line_end(s: Seq<char>, i: int)
    requires
        0 <= i <= s.len(),
    ensures
        i <= line_end(s, i) <= s.len(),
        line_end(s, i) < s.len() ==> s[line_end(s, i)] == '\n',
    decreases s.len() - i,
{
    if i < s.len() && s[i] != '\n' {
        lemma_line_end(s, i + 1);
    }
}

proof fn lemma_arrow_at(s: Seq<char>, i: int)
    requires
        0 <= i,
        arrows_from(s, i) >= 1,
    ensures
        i <= arrow_at(s, i),
        arrow_at(s, i) + 1 < s.len(),
        s[arrow_at(s, i)] == '>' && s[arrow_at(s, i) + 1] == '>',
    decreases s.len() - i,
{
    if !(s[i] == '>' && s[i + 1] == '>') {
        lemma_arrow_at(s, i + 1);
    }
}

/// Counts the `>>` of `line` and finds the first.
fn scan_arrows(line: &str) -> (r: (usize, usize))
    ensures
        r.0 == arrows_from(line@, 0),
        r.0 >= 1 ==> r.1 == arrow_at(line@, 0),
{
    let n = line.unicode_len();
    let mut i: usize = 0;
    let mut count: usize = 0;
    let mut first: usize = 0;
    while i < n
        invariant
            n == line@.len(),
            i <= n,
            count <= i,
            count + arrows_from(line@, i as int) == arrows_from(line@, 0),
            count >= 1 ==> first == arrow_at(line@, 0),
            count == 0 ==> arrow_at(line@, i as int) == arrow_at(line@, 0),
        decreases n - i,
    {
        if i + 1 < n && line.get_char(i) == '>' && line.get_char(i + 1) == '>' {
            if count == 0 {
                first = i;
            }
            count = count + 1;
            i = i + 2;
        } else {
            i = i + 1;
        }
    }
    (count, first)
}

/// The cards of a text field: one per line that holds exactly one `>>`,
/// with each side cleaned by `process_field`.
pub fn parse_textfield(textfield: String) -> (cards: Vec<FieldPair>)
    ensures
        cards@.map_values(|p: FieldPair| pair_view(p)) == cards_from(textfield@, 0),
{
    let text = textfield.as_str();
    let n = text.unicode_len();
    let mut cards: Vec<FieldPair> = Vec::new();
    let mut start: usize = 0;
    while start < n
        invariant
            n == text@.len(),
            text@ == textfield@,
            start <= n,
            cards@.map_values(|p: FieldPair| pair_view(p)) + cards_from(text@, start as int)
                == cards_from(text@, 0),
        decreases n - start,
    {
        let mut e = start;
        while e < n && text.get_char(e) != '\n'
            invariant
                start <= e <= n,
                n == text@.len(),
                line_end(text@, e as int) == line_end(text@, start as int),
            decreases n - e,
        {
            e = e + 1;
        }
        let ghost gs = start as int;
        let ghost ge = e as int;
        let stop = if e < n && e > start && text.get_char(e - 1) == '\r' {
            e - 1
        } else {
            e
        };
        let line = text.substring_char(start, stop);
        assert(line@ == line_text(text@, gs, ge));
        let ghost before = cards@.map_values(|p: FieldPair| pair_view(p));
        let (count, p) = scan_arrows(line);
        if count == 1 {
            let m = line.unicode_len();
            proof {
                lemma_arrow_at(line@, 0);
            }
            let front = process_field(line.substring_char(0, p));
            let back = process_field(line.substring_char(p + 2, m));
            cards.push(FieldPair { front, back });
            proof {
                assert(cards@.map_values(|p: FieldPair| pair_view(p)) =~= before.push(
                    (field_text(line@.subrange(0, p as int)), field_text(line@.subrange(p + 2, m as int))),
                ));
            }
        }
        start = if e < n {
            e + 1
        } else {
            n
        };
        proof {
            assert(cards@.map_values(|p: FieldPair| pair_view(p)) + cards_from(text@, start as int)
                =~= cards_from(text@, 0));
        }
    }
    cards
}

} // verus!
