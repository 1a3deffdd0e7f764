use vstd::prelude::*;
use vstd::string::StrSliceExecFns;
use crate::use_book::{push_char, push_str, views};
use crate::proto::{Color, Move, PlayerStat, RecvCommand, Wl};

verus! {

// ---------------------------------------------------------------------------
// Words.

/// `c` has the Unicode White_Space property: tab through carriage return,
/// space, next line, no-break space, ogham space mark, the spaces from en
/// quad to hair space, line and paragraph separators, narrow no-break
/// space, medium mathematical space and ideographic space.
pub open spec fn is_space(c: char) -> bool {
    let u = c as u32;
    ||| 0x09 <= u <= 0x0d
    ||| u == 0x20
    ||| u == 0x85
    ||| u == 0xa0
    ||| u == 0x1680
    ||| 0x2000 <= u <= 0x200a
    ||| u == 0x2028
    ||| u == 0x2029
    ||| u == 0x202f
    ||| u == 0x205f
    ||| u == 0x3000
}

/// Relies on `char::is_whitespace`: whether `c` has the Unicode White_Space
/// property.
#[verifier::external_body]
fn char_is_whitespace(c: char) -> (r: bool)
    ensures
        r == is_space(c),
{
    c.is_whitespace()
}

/// The words of `s`: its maximal runs of characters other than white space.
pub open spec fn words(s: Seq<char>) -> Seq<Seq<char>>
    decreases s.len(),
{
    if s.len() == 0 {
        Seq::empty()
    } else {
        let t = words(s.drop_last());
        let c = s.last();
        if is_space(c) {
            t
        } else if s.len() >= 2 && !is_space(s[s.len() - 2]) {
            t.update(t.len() - 1, t.last().push(c))
        } else {
            t.push(seq![c])
        }
    }
}

/// The words of `s`.
fn split_words(s: &str) -> (r: Vec<String>)
    ensures
        views(r@) == words(s@),
{
    let n = s.unicode_len();
    let mut toks: Vec<String> = Vec::new();
    let mut cur = String::new();
    let mut in_word = false;
    let mut i: usize = 0;
    while i < n
        invariant
            i <= n,
            n == s@.len(),
            in_word ==> i > 0 && !is_space(s@[i - 1]) && views(toks@).push(cur@) == words(
                s@.subrange(0, i as int),
            ),
            !in_word ==> cur@ == Seq::<char>::empty(),
            !in_word ==> (i == 0 || is_space(s@[i - 1])) && views(toks@) == words(
                s@.subrange(0, i as int),
            ),
        decreases n - i,
    {
        let c = s.get_char(i);
        let ghost pre = s@.subrange(0, i as int);
        let ghost post = s@.subrange(0, i + 1);
        assert(post.drop_last() == pre);
        assert(post.last() == c);
        if char_is_whitespace(c) {
            if in_word {
                let w = cur;
                toks.push(w);
                cur = String::new();
                assert(views(toks@) == words(pre));
            }
            in_word = false;
        } else {
            let ghost tv = views(toks@);
            let ghost cv = cur@;
            push_char(&mut cur, c);
            if in_word {
                assert(post[post.len() - 2] == s@[i - 1]);
                assert(views(toks@).push(cur@) == tv.push(cv).update(tv.len() as int, cv.push(c)));
            } else {
                assert(cv.push(c) == seq![c]);
            }
            in_word = true;
        }
        i = i + 1;
    }
    assert(s@.subrange(0, n as int) == s@);
    if in_word {
        let ghost tv = views(toks@);
        toks.push(cur);
        assert(views(toks@) == tv.push(cur@));
    }
    toks
}

// ---------------------------------------------------------------------------
// Numbers.

pub open spec fn is_digit(c: char) -> bool {
    '0' <= c <= '9'
}

/// The number that the decimal digits `s` write.
pub open spec fn digits_value(s: Seq<char>) -> int
    decreases s.len(),
{
    if s.len() == 0 {
        0
    } else {
        10 * digits_value(s.drop_last()) + (s.last() as int - '0' as int)
    }
}

/// `s` holds digits only.
pub open spec fn all_digits(s: Seq<char>) -> bool {
    forall|i: int| 0 <= i < s.len() ==> is_digit(#[trigger] s[i])
}

/// `s` starts with a sign that `str::parse` accepts (`-` only when `signed`).
pub open spec fn has_sign(s: Seq<char>, signed: bool) -> bool {
    s.len() > 0 && (s[0] == '+' || (signed && s[0] == '-'))
}

/// The digits of `s`: what follows its sign.
pub open spec fn number_body(s: Seq<char>, signed: bool) -> Seq<char> {
    if has_sign(s, signed) {
        s.subrange(1, s.len() as int)
    } else {
        s
    }
}

/// The integer that `s` writes in decimal, as `str::parse` reads it: an
/// optional sign (`-` only when `signed`), then one digit or more.
pub open spec fn decimal_value(s: Seq<char>, signed: bool) -> Option<int> {
    let body = number_body(s, signed);
    if body.len() > 0 && all_digits(body) {
        Some(
            if signed && s[0] == '-' {
                -digits_value(body)
            } else {
                digits_value(body)
            },
        )
    } else {
        None
    }
}

/// `s` as a number within `lo..=hi`, if it writes one.
pub open spec fn number_in(s: Seq<char>, signed: bool, lo: int, hi: int) -> Option<int> {
    match decimal_value(s, signed) {
        Some(n) => if lo <= n <= hi {
            Some(n)
        } else {
            None
        },
        None => None,
    }
}

proof fn lemma_digits_grow(s: Seq<char>)
    requires
        forall|i: int| 0 <= i < s.len() ==> is_digit(#[trigger] s[i]),
    ensures
        digits_value(s) >= 0,
        s.len() > 0 ==> digits_value(s) >= digits_value(s.drop_last()),
    decreases s.len(),
{
    if s.len() > 0 {
        lemma_digits_grow(s.drop_last());
    }
}

proof fn lemma_unsigned_nonneg(s: Seq<char>)
    ensures
        decimal_value(s, false) matches Some(n) ==> n >= 0,
{
    let body = number_body(s, false);
    if body.len() > 0 && all_digits(body) {
        lemma_digits_grow(body);
    }
}

const NUMBER_CAP: i64 = 0x1_0000_0000;

/// The number that `t` writes in decimal, when at most 2^32 in size.
fn parse_decimal(t: &str, signed: bool) -> (r: Option<i64>)
    ensures
        r == match number_in(t@, signed, -NUMBER_CAP as int, NUMBER_CAP as int) {
            Some(n) => Some(n as i64),
            None => None,
        },
{
    let n = t.unicode_len();
    if n == 0 {
        return None;
    }
    let first = t.get_char(0);
    let neg = signed && first == '-';
    let start: usize = if first == '+' || neg { 1 } else { 0 };
    let ghost body = number_body(t@, signed);
    assert(body == t@.subrange(start as int, n as int));
    if start == n {
        return None;
    }
    let mut acc: i64 = 0;
    let mut big = false;
    let mut i: usize = start;
    while i < n
        invariant
            start <= i <= n,
            n == t@.len(),
            n > 0,
            neg == (signed && t@[0] == '-'),
            start == (if t@[0] == '+' || neg { 1usize } else { 0usize }),
            body == t@.subrange(start as int, n as int),
            body == number_body(t@, signed),
            forall|j: int| start <= j < i ==> is_digit(#[trigger] t@[j]),
            !big ==> acc == digits_value(t@.subrange(start as int, i as int)) && 0 <= acc
                <= NUMBER_CAP,
            big ==> digits_value(t@.subrange(start as int, i as int)) > NUMBER_CAP,
        decreases n - i,
    {
        let c = t.get_char(i);
        let ghost pre = t@.subrange(start as int, i as int);
        let ghost post = t@.subrange(start as int, i + 1);
        assert(post.drop_last() == pre);
        if c < '0' || c > '9' {
            assert(!is_digit(body[i - start]));
            return None;
        }
        assert forall|j: int| 0 <= j < post.len() implies is_digit(#[trigger] post[j]) by {
            assert(post[j] == t@[start + j]);
        }
        proof {
            lemma_digits_grow(post);
        }
        let d = (c as u32 - '0' as u32) as i64;
        if !big {
            acc = acc * 10 + d;
            if acc > NUMBER_CAP {
                big = true;
            }
        }
        i = i + 1;
    }
    assert forall|j: int| 0 <= j < body.len() implies is_digit(#[trigger] body[j]) by {
        assert(body[j] == t@[start + j]);
    }
    if big {
        None
    } else if neg {
        Some(-acc)
    } else {
        Some(acc)
    }
}

fn parse_int(t: &str) -> (r: Option<i32>)
    ensures
        r == match number_in(t@, true, i32::MIN as int, i32::MAX as int) {
            Some(n) => Some(n as i32),
            None => None,
        },
{
    match parse_decimal(t, true) {
        Some(v) => if i32::MIN as i64 <= v && v <= i32::MAX as i64 {
            Some(v as i32)
        } else {
            None
        },
        None => None,
    }
}

fn parse_uint(t: &str) -> (r: Option<u32>)
    ensures
        r == match number_in(t@, false, 0, u32::MAX as int) {
            Some(n) => Some(n as u32),
            None => None,
        },
{
    match parse_decimal(t, false) {
        Some(v) => if 0 <= v && v <= u32::MAX as i64 {
            Some(v as u32)
        } else {
            None
        },
        None => {
            proof {
                lemma_unsigned_nonneg(t@);
            }
            None
        },
    }
}

// ---------------------------------------------------------------------------
// Commands.

pub open spec fn int_of(t: Seq<char>) -> Option<int> {
    number_in(t, true, i32::MIN as int, i32::MAX as int)
}

pub open spec fn uint_of(t: Seq<char>) -> Option<int> {
    number_in(t, false, 0, u32::MAX as int)
}

pub open spec fn color_word(t: Seq<char>) -> Option<Color> {
    if t == seq!['B', 'L', 'A', 'C', 'K'] {
        Some(Color::Black)
    } else if t == seq!['W', 'H', 'I', 'T', 'E'] {
        Some(Color::White)
    } else {
        None
    }
}

pub open spec fn wl_word(t: Seq<char>) -> Option<Wl> {
    if t == seq!['W', 'I', 'N'] {
        Some(Wl::Win)
    } else if t == seq!['L', 'O', 'S', 'E'] {
        Some(Wl::Lose)
    } else if t == seq!['T', 'I', 'E'] {
        Some(Wl::Tie)
    } else {
        None
    }
}

pub open spec fn move_word(t: Seq<char>) -> Option<Move> {
    if t == seq!['P', 'A', 'S', 'S'] {
        Some(Move::Pass)
    } else if t == seq!['G', 'I', 'V', 'E', 'U', 'P'] {
        Some(Move::GiveUp)
    } else if t.len() == 2 && 'A' <= t[0] <= 'H' && '1' <= t[1] <= '8' {
        Some(
            Move::Mv {
                x_ah: (t[0] as int - 'A' as int + 1) as u32,
                y_18: (t[1] as int - '1' as int + 1) as u32,
            },
        )
    } else {
        None
    }
}

pub open spec fn kw_start() -> Seq<char> {
    seq!['S', 'T', 'A', 'R', 'T']
}

pub open spec fn kw_end() -> Seq<char> {
    seq!['E', 'N', 'D']
}

pub open spec fn kw_move() -> Seq<char> {
    seq!['M', 'O', 'V', 'E']
}

pub open spec fn kw_ack() -> Seq<char> {
    seq!['A', 'C', 'K']
}

pub open spec fn kw_bye() -> Seq<char> {
    seq!['B', 'Y', 'E']
}

/// Group `g` of a `BYE` line: name, score, wins, losses.
pub open spec fn stat_ok(ws: Seq<Seq<char>>, g: int) -> bool {
    int_of(ws[4 * g + 2]) is Some && uint_of(ws[4 * g + 3]) is Some && uint_of(ws[4 * g + 4]) is Some
}

/// The words make a command line; words after a complete command other
/// than `BYE` are ignored.
pub open spec fn parses(ws: Seq<Seq<char>>) -> bool {
    &&& ws.len() >= 1
    &&& {
        ||| (ws[0] == kw_start() && ws.len() >= 4 && color_word(ws[1]) is Some && int_of(ws[3]) is Some)
        ||| (ws[0] == kw_end() && ws.len() >= 5 && wl_word(ws[1]) is Some && uint_of(ws[2]) is Some
            && uint_of(ws[3]) is Some)
        ||| (ws[0] == kw_move() && ws.len() >= 2 && move_word(ws[1]) is Some)
        ||| (ws[0] == kw_ack() && ws.len() >= 2 && int_of(ws[1]) is Some)
        ||| (ws[0] == kw_bye() && (ws.len() - 1) % 4 == 0 && forall|g: int|
            0 <= g < (ws.len() - 1) / 4 ==> #[trigger] stat_ok(ws, g))
    }
}

/// `c` is the command that the words write.
pub open spec fn describes(c: RecvCommand, ws: Seq<Seq<char>>) -> bool {
    match c {
        RecvCommand::Start { color, opponent_name, assigned_time_ms } => ws[0] == kw_start()
            && color_word(ws[1]) == Some(color) && opponent_name@ == ws[2] && int_of(ws[3]) == Some(
            assigned_time_ms as int,
        ),
        RecvCommand::End { result, your_stone_count, opponent_stone_count, reason } => ws[0]
            == kw_end() && wl_word(ws[1]) == Some(result) && uint_of(ws[2]) == Some(
            your_stone_count as int,
        ) && uint_of(ws[3]) == Some(opponent_stone_count as int) && reason@ == ws[4],
        RecvCommand::Move(m) => ws[0] == kw_move() && move_word(ws[1]) == Some(m),
        RecvCommand::Ack { assigned_time_ms } => ws[0] == kw_ack() && int_of(ws[1]) == Some(
            assigned_time_ms as int,
        ),
        RecvCommand::Bye { stat } => ws[0] == kw_bye() && stat@.len() == (ws.len() - 1) / 4
            && forall|g: int|
            0 <= g < stat@.len() ==> {
                &&& (#[trigger] stat@[g]).player_name@ == ws[4 * g + 1]
                &&& int_of(ws[4 * g + 2]) == Some(stat@[g].score as int)
                &&& uint_of(ws[4 * g + 3]) == Some(stat@[g].wins as int)
                &&& uint_of(ws[4 * g + 4]) == Some(stat@[g].loses as int)
            },
    }
}

proof fn lemma_keywords_distinct()
    ensures
        kw_start() != kw_end(),
        kw_start() != kw_move(),
        kw_start() != kw_ack(),
        kw_start() != kw_bye(),
        kw_end() != kw_move(),
        kw_end() != kw_ack(),
        kw_end() != kw_bye(),
        kw_move() != kw_ack(),
        kw_move() != kw_bye(),
        kw_ack() != kw_bye(),
{
    assert(kw_start().len() != kw_end().len());
    assert(kw_start().len() != kw_move().len());
    assert(kw_start().len() != kw_ack().len());
    assert(kw_start().len() != kw_bye().len());
    assert(kw_end().len() != kw_move().len());
    assert(kw_end()[0] != kw_ack()[0]);
    assert(kw_end()[0] != kw_bye()[0]);
    assert(kw_move().len() != kw_ack().len());
    assert(kw_move().len() != kw_bye().len());
    assert(kw_ack()[0] != kw_bye()[0]);
}

/// `a` holds the characters of `b`.
fn same_text(a: &str, b: &str) -> (r: bool)
    ensures
        r == (a@ == b@),
{
    let n = a.unicode_len();
    if n != b.unicode_len() {
        return false;
    }
    let mut i: usize = 0;
    while i < n
        invariant
            i <= n,
            n == a@.len(),
            n == b@.len(),
            forall|j: int| 0 <= j < i ==> a@[j] == b@[j],
        decreases n - i,
    {
        if a.get_char(i) != b.get_char(i) {
            return false;
        }
        i = i + 1;
    }
    assert(a@ == b@);
    true
}

/// The error of a missing or malformed word: `Expected <what>, got ...`.
fn expected(what: &str, got: Option<&String>) -> String {
    let mut r = String::new();
    push_str(&mut r, "Expected ");
    push_str(&mut r, what);
    match got {
        Some(w) => {
            push_str(&mut r, ", got `");
            push_str(&mut r, w.as_str());
            push_char(&mut r, '`');
        },
        None => {
            push_str(&mut r, ", got EOF");
        },
    }
    r
}

fn parse_wb(w: &String) -> (r: Option<Color>)
    ensures
        r == color_word(w@),
{
    proof {
        reveal_strlit("BLACK");
        assert("BLACK"@ =~= seq!['B', 'L', 'A', 'C', 'K']);
        reveal_strlit("WHITE");
        assert("WHITE"@ =~= seq!['W', 'H', 'I', 'T', 'E']);
    }
    if same_text(w.as_str(), "BLACK") {
        Some(Color::Black)
    } else if same_text(w.as_str(), "WHITE") {
        Some(Color::White)
    } else {
        None
    }
}

fn parse_wl(w: &String) -> (r: Option<Wl>)
    ensures
        r == wl_word(w@),
{
    proof {
        reveal_strlit("WIN");
        assert("WIN"@ =~= seq!['W', 'I', 'N']);
        reveal_strlit("LOSE");
        assert("LOSE"@ =~= seq!['L', 'O', 'S', 'E']);
        reveal_strlit("TIE");
        assert("TIE"@ =~= seq!['T', 'I', 'E']);
    }
    if same_text(w.as_str(), "WIN") {
        Some(Wl::Win)
    } else if same_text(w.as_str(), "LOSE") {
        Some(Wl::Lose)
    } else if same_text(w.as_str(), "TIE") {
        Some(Wl::Tie)
    } else {
        None
    }
}

fn parse_mv(w: &String) -> (r: Option<Move>)
    ensures
        r == move_word(w@),
{
    proof {
        reveal_strlit("PASS");
        assert("PASS"@ =~= seq!['P', 'A', 'S', 'S']);
        reveal_strlit("GIVEUP");
        assert("GIVEUP"@ =~= seq!['G', 'I', 'V', 'E', 'U', 'P']);
    }
    if same_text(w.as_str(), "PASS") {
        return Some(Move::Pass);
    }
    if same_text(w.as_str(), "GIVEUP") {
        return Some(Move::GiveUp);
    }
    let t = w.as_str();
    if t.unicode_len() == 2 {
        let x = t.get_char(0);
        let y = t.get_char(1);
        if 'A' <= x && x <= 'H' && '1' <= y && y <= '8' {
            let x_ah = x as u32 - 'A' as u32 + 1;
            let y_18 = y as u32 - '1' as u32 + 1;
            return Some(Move::Mv { x_ah, y_18 });
        }
    }
    None
}

/// Parses one line from the server into a command. The line is split into
/// words at white space; it is accepted exactly when its words make a
/// command (`parses`), and the command is then the one they write; else the
/// error says what was expected.
pub fn parse(s: &str) -> (r: Result<RecvCommand, String>)
    ensures
        r is Ok <==> parses(words(s@)),
        r matches Ok(c) ==> describes(c, words(s@)),
{
    let ws = split_words(s);
    let ghost w = words(s@);
    let n = ws.len();
    if n == 0 {
        let mut e = String::new();
        push_str(&mut e, "Empty command");
        return Err(e);
    }
    assert(ws@[0]@ == w[0]);
    proof {
        reveal_strlit("START");
        assert("START"@ =~= seq!['S', 'T', 'A', 'R', 'T']);
        reveal_strlit("END");
        assert("END"@ =~= seq!['E', 'N', 'D']);
        reveal_strlit("MOVE");
        assert("MOVE"@ =~= seq!['M', 'O', 'V', 'E']);
        reveal_strlit("ACK");
        assert("ACK"@ =~= seq!['A', 'C', 'K']);
        reveal_strlit("BYE");
        assert("BYE"@ =~= seq!['B', 'Y', 'E']);
    }
    proof {
        lemma_keywords_distinct();
    }
    let cmd = ws[0].as_str();
    if same_text(cmd, "START") {
        if n < 2 {
            return Err(expected("black/white", None));
        }
        assert(ws@[1]@ == w[1]);
        let color = match parse_wb(&ws[1]) {
            Some(c) => c,
            None => {
                return Err(expected("black/white", Some(&ws[1])));
            },
        };
        if n < 3 {
            return Err(expected("string", None));
        }
        assert(ws@[2]@ == w[2]);
        let opponent_name = ws[2].clone();
        if n < 4 {
            return Err(expected("integer", None));
        }
        assert(ws@[3]@ == w[3]);
        let assigned_time_ms = match parse_int(ws[3].as_str()) {
            Some(v) => v,
            None => {
                return Err(expected("integer", Some(&ws[3])));
            },
        };
        Ok(RecvCommand::Start { color, opponent_name, assigned_time_ms })
    } else if same_text(cmd, "END") {
        if n < 2 {
            return Err(expected("win/lose/tie", None));
        }
        assert(ws@[1]@ == w[1]);
        let result = match parse_wl(&ws[1]) {
            Some(x) => x,
            None => {
                return Err(expected("win/lose/tie", Some(&ws[1])));
            },
        };
        if n < 3 {
            return Err(expected("unsigned integer", None));
        }
        assert(ws@[2]@ == w[2]);
        let your_stone_count = match parse_uint(ws[2].as_str()) {
            Some(v) => v,
            None => {
                return Err(expected("unsigned integer", Some(&ws[2])));
            },
        };
        if n < 4 {
            return Err(expected("unsigned integer", None));
        }
        assert(ws@[3]@ == w[3]);
        let opponent_stone_count = match parse_uint(ws[3].as_str()) {
            Some(v) => v,
            None => {
                return Err(expected("unsigned integer", Some(&ws[3])));
            },
        };
        if n < 5 {
            return Err(expected("string", None));
        }
        assert(ws@[4]@ == w[4]);
        let reason = ws[4].clone();
        Ok(RecvCommand::End { result, your_stone_count, opponent_stone_count, reason })
    } else if same_text(cmd, "MOVE") {
        if n < 2 {
            return Err(expected("move", None));
        }
        assert(ws@[1]@ == w[1]);
        match parse_mv(&ws[1]) {
            Some(mv) => Ok(RecvCommand::Move(mv)),
            None => Err(expected("move", Some(&ws[1]))),
        }
    } else if same_text(cmd, "ACK") {
        if n < 2 {
            return Err(expected("integer", None));
        }
        assert(ws@[1]@ == w[1]);
        match parse_int(ws[1].as_str()) {
            Some(v) => Ok(RecvCommand::Ack { assigned_time_ms: v }),
            None => Err(expected("integer", Some(&ws[1]))),
        }
    } else if same_text(cmd, "BYE") {
        let mut stat: Vec<PlayerStat> = Vec::new();
        let mut i: usize = 1;
        while i < n
            invariant
                1 <= i,
                n == ws@.len(),
                views(ws@) == w,
                w == words(s@),
                w[0] == kw_bye(),
                kw_bye() != kw_start() && kw_bye() != kw_end() && kw_bye() != kw_move() && kw_bye()
                    != kw_ack(),
                (i - 1) % 4 == 0,
                i <= n,
                stat@.len() == (i - 1) / 4,
                forall|g: int| 0 <= g < stat@.len() ==> #[trigger] stat_ok(w, g),
                forall|g: int|
                    0 <= g < stat@.len() ==> {
                        &&& (#[trigger] stat@[g]).player_name@ == w[4 * g + 1]
                        &&& int_of(w[4 * g + 2]) == Some(stat@[g].score as int)
                        &&& uint_of(w[4 * g + 3]) == Some(stat@[g].wins as int)
                        &&& uint_of(w[4 * g + 4]) == Some(stat@[g].loses as int)
                    },
            decreases n - i,
        {
            let ghost g = (i - 1) / 4;
            assert(4 * g + 1 == i);
            let player_name = ws[i].clone();
            assert(ws@[i as int]@ == w[i as int]);
            if i + 1 >= n {
                assert(w.len() == i + 1);
                assert((w.len() - 1) % 4 != 0);
                return Err(expected("integer", None));
            }
            assert(ws@[i + 1]@ == w[i + 1]);
            let score = match parse_int(ws[i + 1].as_str()) {
                Some(v) => v,
                None => {
                    assert(!stat_ok(w, g));
                    assert((w.len() - 1) % 4 != 0 || g < (w.len() - 1) / 4);
                    return Err(expected("integer", Some(&ws[i + 1])));
                },
            };
            if i + 2 >= n {
                return Err(expected("unsigned integer", None));
            }
            assert(ws@[i + 2]@ == w[i + 2]);
            let wins = match parse_uint(ws[i + 2].as_str()) {
                Some(v) => v,
                None => {
                    assert(!stat_ok(w, g));
                    return Err(expected("unsigned integer", Some(&ws[i + 2])));
                },
            };
            if i + 3 >= n {
                return Err(expected("unsigned integer", None));
            }
            assert(ws@[i + 3]@ == w[i + 3]);
            let loses = match parse_uint(ws[i + 3].as_str()) {
                Some(v) => v,
                None => {
                    assert(!stat_ok(w, g));
                    return Err(expected("unsigned integer", Some(&ws[i + 3])));
                },
            };
            let ghost before = stat@;
            stat.push(PlayerStat { player_name, score, wins, loses });
            assert(stat_ok(w, g));
            assert forall|h: int| 0 <= h < stat@.len() implies #[trigger] stat_ok(w, h) by {
                if h < g {
                    assert(before[h] == stat@[h]);
                }
            }
            i = i + 4;
        }
        Ok(RecvCommand::Bye { stat })
    } else {
        let mut e = String::new();
        push_str(&mut e, "Invalid command");
        Err(e)
    }
}

} // verus!
