use vstd::prelude::*;
use crate::bit_othello::Pos;
use crate::proto::Move;
use vstd::string::StrSliceExecFns;
use vstd::std_specs::iter::IteratorSpec;

verus! {

// ---------------------------------------------------------------------------
// Square names and move histories.

/// File (1..8) of the file letter `c`.
pub open spec fn file_of(c: char) -> int {
    c as int - 'A' as int + 1
}

/// Rank (1..8) of the rank digit `c`.
pub open spec fn rank_of(c: char) -> int {
    c as int - '1' as int + 1
}

/// The two-character name of square (x, y): file letter, rank digit.
pub open spec fn square_name(x: int, y: int) -> Seq<char> {
    seq![('A' as int + x - 1) as char, ('1' as int + y - 1) as char]
}

/// A name of a square: a letter A..H, then a digit 1..8.
pub open spec fn is_square_name(s: Seq<char>) -> bool {
    s.len() == 2 && 'A' <= s[0] <= 'H' && '1' <= s[1] <= '8'
}

/// The name of a move in a history key; a pass or a resignation has none.
pub open spec fn move_name(m: Move) -> Seq<char> {
    match m {
        Move::Mv { x_ah, y_18 } => square_name(x_ah as int, y_18 as int),
        _ => Seq::empty(),
    }
}

/// Every square of the history lies on the board.
pub open spec fn history_on_board(h: Seq<Move>) -> bool {
    forall|k: int|
        0 <= k < h.len() ==> match #[trigger] h[k] {
            Move::Mv { x_ah, y_18 } => 1 <= x_ah <= 8 && 1 <= y_18 <= 8,
            _ => true,
        }
}

/// The book key of a history: the names of its moves, in order.
pub open spec fn history_key(h: Seq<Move>) -> Seq<char>
    decreases h.len(),
{
    if h.len() == 0 {
        Seq::empty()
    } else {
        history_key(h.drop_last()) + move_name(h.last())
    }
}

// ---------------------------------------------------------------------------
// Rotations.

/// Square (x, y) under rotation `r`: identity, the anti-diagonal mirror,
/// the half turn, the diagonal mirror.
pub open spec fn rotate_square(x: int, y: int, r: int) -> (int, int) {
    if r == 1 {
        (9 - y, 9 - x)
    } else if r == 2 {
        (9 - x, 9 - y)
    } else if r == 3 {
        (y, x)
    } else {
        (x, y)
    }
}

/// The name of square `k[2i] k[2i+1]` under rotation `r`.
pub open spec fn rotated_pair(k: Seq<char>, i: int, r: int) -> Seq<char> {
    let p = rotate_square(file_of(k[2 * i]), rank_of(k[2 * i + 1]), r);
    square_name(p.0, p.1)
}

/// The first `n` square names of `k`, each under rotation `r`.
pub open spec fn rotate_pairs(k: Seq<char>, n: nat, r: int) -> Seq<char>
    decreases n,
{
    if n == 0 {
        Seq::empty()
    } else {
        rotate_pairs(k, (n - 1) as nat, r) + rotated_pair(k, n - 1, r)
    }
}

/// A key with each of its square names under rotation `r`.
pub open spec fn rotate_key(k: Seq<char>, r: int) -> Seq<char> {
    rotate_pairs(k, k.len() / 2, r)
}

fn square_chars(x: u32, y: u32) -> (r: (char, char))
    requires
        1 <= x <= 8,
        1 <= y <= 8,
    ensures
        seq![r.0, r.1] == square_name(x as int, y as int),
{
    let cx = (('A' as u8) + (x as u8) - 1) as char;
    let cy = (('1' as u8) + (y as u8) - 1) as char;
    (cx, cy)
}

// ---------------------------------------------------------------------------
// Lookup.

/// What the book suggests after rotating the key by `r`: the value's square,
/// rotated back by `r`.
pub open spec fn probe(t: Map<Seq<char>, Seq<char>>, key: Seq<char>, r: int) -> Option<Move> {
    let rk = rotate_key(key, r);
    if t.contains_key(rk) {
        let v = t[rk];
        let p = rotate_square(file_of(v[0]), rank_of(v[1]), r);
        Some(Move::Mv { x_ah: p.0 as u32, y_18: p.1 as u32 })
    } else {
        None
    }
}

/// The suggestion of the last rotation below `n` that the book holds.
pub open spec fn lookup_upto(t: Map<Seq<char>, Seq<char>>, key: Seq<char>, n: nat) -> Option<
    Move,
>
    decreases n,
{
    if n == 0 {
        None
    } else {
        let p = probe(t, key, n - 1);
        if p is Some {
            p
        } else {
            lookup_upto(t, key, (n - 1) as nat)
        }
    }
}

/// The book's suggestion for a history key, under the four rotations; the
/// last rotation that the book holds wins.
pub open spec fn book_lookup(t: Map<Seq<char>, Seq<char>>, key: Seq<char>) -> Option<Move> {
    lookup_upto(t, key, 4)
}

// ---------------------------------------------------------------------------
// The book.

/// The table that a sequence of insertions builds; a later entry replaces
/// an earlier one of the same key.
pub open spec fn table_of(s: Seq<(Seq<char>, Seq<char>)>) -> Map<Seq<char>, Seq<char>>
    decreases s.len(),
{
    if s.len() == 0 {
        Map::empty()
    } else {
        table_of(s.drop_last()).insert(s.last().0, s.last().1)
    }
}

/// Opening book: move-history keys to the name of the next square.
pub struct Book {
    entries: Vec<(String, String)>,
}

impl Book {
    /// The entries, in order of insertion.
    pub closed spec fn entry_seq(&self) -> Seq<(Seq<char>, Seq<char>)> {
        self.entries@.map_values(|e: (String, String)| (e.0@, e.1@))
    }

    /// The key-to-value table.
    pub open spec fn table(&self) -> Map<Seq<char>, Seq<char>> {
        table_of(self.entry_seq())
    }

    /// Every value names a square.
    pub open spec fn wf(&self) -> bool {
        forall|k: Seq<char>| #[trigger] self.table().contains_key(k) ==> is_square_name(self.table()[k])
    }

    /// An empty book.
    pub fn new() -> (r: Book)
        ensures
            r.table() == Map::<Seq<char>, Seq<char>>::empty(),
            r.wf(),
    {
        let r = Book { entries: Vec::new() };
        assert(r.entry_seq().len() == 0);
        r
    }

    /// Sets the value of `key`.
    pub fn insert(&mut self, key: String, value: String)
        requires
            is_square_name(value@),
            old(self).wf(),
        ensures
            final(self).table() == old(self).table().insert(key@, value@),
            final(self).wf(),
    {
        let ghost before = self.entry_seq();
        self.entries.push((key, value));
        proof {
            assert(self.entry_seq().drop_last() == before);
        }
    }

    /// Number of entries inserted.
    pub fn len(&self) -> (r: usize)
        ensures
            r == self.entry_seq().len(),
    {
        self.entries.len()
    }

    /// The `i`-th entry inserted, as (key, value).
    pub fn entry(&self, i: usize) -> (r: (String, String))
        requires
            i < self.entry_seq().len(),
        ensures
            (r.0@, r.1@) == self.entry_seq()[i as int],
    {
        let e = &self.entries[i];
        (e.0.clone(), e.1.clone())
    }

    /// The value of `key`, if any.
    pub fn get(&self, key: &String) -> (r: Option<String>)
        ensures
            r matches Some(v) ==> self.table().contains_key(key@) && v@ == self.table()[key@],
            r is None ==> !self.table().contains_key(key@),
    {
        let ghost es = self.entry_seq();
        let mut i: usize = self.entries.len();
        assert(es.subrange(0, i as int) == es);
        while i > 0
            invariant
                i <= self.entries@.len(),
                es == self.entry_seq(),
                es.len() == self.entries@.len(),
                table_of(es).contains_key(key@) ==> (table_of(es.subrange(0, i as int)).contains_key(
                    key@,
                ) && table_of(es)[key@] == table_of(es.subrange(0, i as int))[key@]),
                !table_of(es).contains_key(key@) ==> !table_of(es.subrange(0, i as int)).contains_key(
                    key@,
                ),
                forall|j: int| i <= j < es.len() ==> (#[trigger] es[j]).0 != key@,
            decreases i,
        {
            let e = &self.entries[i - 1];
            assert(es[i - 1] == (e.0@, e.1@));
            assert(es.subrange(0, i as int).drop_last() == es.subrange(0, i - 1));
            if e.0 == *key {
                return Some(e.1.clone());
            }
            i = i - 1;
        }
        assert(es.subrange(0, 0) =~= Seq::<(Seq<char>, Seq<char>)>::empty());
        None
    }
}

// ---------------------------------------------------------------------------
// Strings.

/// Relies on `String::push`: appends one character.
#[verifier::external_body]
pub(crate) fn push_char(s: &mut String, c: char)
    ensures
        final(s)@ == old(s)@.push(c),
{
    s.push(c);
}

/// Relies on `String::push_str`: appends the characters of `t`.
#[verifier::external_body]
pub(crate) fn push_str(s: &mut String, t: &str)
    ensures
        final(s)@ == old(s)@ + t@,
{
    s.push_str(t);
}

/// The square of a two-character name.
fn str2pos(s: &str) -> (r: Pos)
    requires
        s@.len() >= 2,
        'A' <= s@[0] <= 'H',
        '1' <= s@[1] <= '8',
    ensures
        r == (file_of(s@[0]) as usize, rank_of(s@[1]) as usize),
        1 <= r.0 <= 8,
        1 <= r.1 <= 8,
{
    let x = s.get_char(0) as u32 - 'A' as u32 + 1;
    let y = s.get_char(1) as u32 - '1' as u32 + 1;
    (x as usize, y as usize)
}

/// The name of a move in a history key: two characters for a square, none
/// for a pass or a resignation.
fn move2str(m: Move) -> (r: String)
    requires
        m matches Move::Mv { x_ah, y_18 } ==> 1 <= x_ah <= 8 && 1 <= y_18 <= 8,
    ensures
        r@ == move_name(m),
{
    let mut r = String::new();
    if let Move::Mv { x_ah, y_18 } = m {
        let (cx, cy) = square_chars(x_ah, y_18);
        push_char(&mut r, cx);
        push_char(&mut r, cy);
    }
    r
}

/// Square `pos` under rotation `rot`.
fn rotate_pos(pos: Pos, rot: u32) -> (r: Pos)
    requires
        1 <= pos.0 <= 8,
        1 <= pos.1 <= 8,
    ensures
        r == (rotate_square(pos.0 as int, pos.1 as int, rot as int).0 as usize, rotate_square(
            pos.0 as int,
            pos.1 as int,
            rot as int,
        ).1 as usize),
        1 <= r.0 <= 8,
        1 <= r.1 <= 8,
{
    let (x, y) = pos;
    match rot {
        0 => (x, y),
        1 => (9 - y, 9 - x),
        2 => (9 - x, 9 - y),
        3 => (y, x),
        _ => (x, y),
    }
}

/// A key made of square names only.
pub open spec fn is_key(k: Seq<char>) -> bool {
    &&& k.len() % 2 == 0
    &&& forall|i: int|
        0 <= i < k.len() / 2 ==> 'A' <= #[trigger] k[2 * i] <= 'H' && '1' <= k[2 * i + 1] <= '8'
}

proof fn lemma_history_key(h: Seq<Move>)
    requires
        history_on_board(h),
    ensures
        is_key(history_key(h)),
    decreases h.len(),
{
    if h.len() > 0 {
        let init = h.drop_last();
        assert(history_on_board(init)) by {
            assert forall|k: int| 0 <= k < init.len() implies match #[trigger] init[k] {
                Move::Mv { x_ah, y_18 } => 1 <= x_ah <= 8 && 1 <= y_18 <= 8,
                _ => true,
            } by {
                assert(init[k] == h[k]);
            }
        }
        lemma_history_key(init);
        let a = history_key(init);
        let k = history_key(h);
        let last = h.last();
        assert(match h[h.len() - 1] {
            Move::Mv { x_ah, y_18 } => 1 <= x_ah <= 8 && 1 <= y_18 <= 8,
            _ => true,
        });
        assert forall|i: int| 0 <= i < k.len() / 2 implies 'A' <= #[trigger] k[2 * i] <= 'H' && '1'
            <= k[2 * i + 1] <= '8' by {
            if i < a.len() / 2 {
                assert(k[2 * i] == a[2 * i]);
                assert(k[2 * i + 1] == a[2 * i + 1]);
            }
        }
    }
}

/// The book's suggestion for the history `kihu`: the key is the names of
/// its moves; each of the four rotations of the key is probed, and the hit
/// of the last one, rotated back, is returned.
pub fn decide(kihu: &Vec<Move>, book_dict: &Book) -> (r: Option<Move>)
    requires
        book_dict.wf(),
        history_on_board(kihu@),
    ensures
        r == book_lookup(book_dict.table(), history_key(kihu@)),
{
    let mut kihu_str = String::new();
    let mut j: usize = 0;
    while j < kihu.len()
        invariant
            j <= kihu@.len(),
            history_on_board(kihu@),
            kihu_str@ == history_key(kihu@.subrange(0, j as int)),
        decreases kihu@.len() - j,
    {
        let m = kihu[j];
        assert(match kihu@[j as int] {
            Move::Mv { x_ah, y_18 } => 1 <= x_ah <= 8 && 1 <= y_18 <= 8,
            _ => true,
        });
        let name = move2str(m);
        push_str(&mut kihu_str, name.as_str());
        assert(kihu@.subrange(0, j + 1).drop_last() == kihu@.subrange(0, j as int));
        j = j + 1;
    }
    assert(kihu@.subrange(0, j as int) == kihu@);
    let ghost key = kihu_str@;
    proof {
        lemma_history_key(kihu@);
    }
    let len = kihu_str.as_str().unicode_len();
    let mut pos: Option<Move> = None;
    let mut rot: u32 = 0;
    while rot < 4
        invariant
            rot <= 4,
            key == kihu_str@,
            len == key.len(),
            is_key(key),
            book_dict.wf(),
            pos == lookup_upto(book_dict.table(), key, rot as nat),
        decreases 4 - rot,
    {
        let mut kihu_rot_str = String::new();
        let mut i: usize = 0;
        while i < len / 2
            invariant
                i <= len / 2,
                key == kihu_str@,
                len == key.len(),
                is_key(key),
                kihu_rot_str@ == rotate_pairs(key, i as nat, rot as int),
            decreases len / 2 - i,
        {
            let pair = kihu_str.as_str().substring_char(i * 2, i * 2 + 2);
            assert(key[2 * i] == pair@[0] && key[2 * i + 1] == pair@[1]);
            let p = str2pos(pair);
            let pos_rot = rotate_pos(p, rot);
            let (cx, cy) = square_chars(pos_rot.0 as u32, pos_rot.1 as u32);
            push_char(&mut kihu_rot_str, cx);
            push_char(&mut kihu_rot_str, cy);
            assert(kihu_rot_str@ == rotate_pairs(key, i as nat, rot as int) + seq![cx, cy]);
            i = i + 1;
        }
        assert(kihu_rot_str@ == rotate_key(key, rot as int));
        if let Some(value) = book_dict.get(&kihu_rot_str) {
            let next_move = str2pos(value.as_str());
            let rotated_next_move = rotate_pos(next_move, rot);
            pos = Some(
                Move::Mv { x_ah: rotated_next_move.0 as u32, y_18: rotated_next_move.1 as u32 },
            );
        }
        rot = rot + 1;
    }
    pos
}

// ---------------------------------------------------------------------------
// Loading a book from text.

/// `s` is made of square names only.
fn key_ok(s: &str) -> (r: bool)
    ensures
        r == is_key(s@),
{
    let n = s.unicode_len();
    if n % 2 != 0 {
        return false;
    }
    let mut i: usize = 0;
    while i < n / 2
        invariant
            i <= n / 2,
            n == s@.len(),
            n % 2 == 0,
            forall|j: int|
                0 <= j < i ==> 'A' <= #[trigger] s@[2 * j] <= 'H' && '1' <= s@[2 * j + 1] <= '8',
        decreases n / 2 - i,
    {
        let x = s.get_char(2 * i);
        let y = s.get_char(2 * i + 1);
        if !('A' <= x && x <= 'H' && '1' <= y && y <= '8') {
            assert(!('A' <= s@[2 * (i as int)] <= 'H' && '1' <= s@[2 * (i as int) + 1] <= '8'));
            return false;
        }
        i = i + 1;
    }
    true
}

/// The pieces of `s` between occurrences of `sep`: one more piece than
/// there are separators, empty pieces kept.
pub open spec fn split_on(s: Seq<char>, sep: char) -> Seq<Seq<char>>
    decreases s.len(),
{
    if s.len() == 0 {
        seq![Seq::empty()]
    } else {
        let r = split_on(s.drop_last(), sep);
        if s.last() == sep {
            r.push(Seq::empty())
        } else {
            r.update(r.len() - 1, r.last().push(s.last()))
        }
    }
}

proof fn lemma_split_nonempty(s: Seq<char>, sep: char)
    ensures
        split_on(s, sep).len() >= 1,
    decreases s.len(),
{
    if s.len() > 0 {
        lemma_split_nonempty(s.drop_last(), sep);
    }
}

/// The book entries of the lines of a text: each line of exactly two
/// colon-separated fields, the first made of square names and the second
/// naming a square.
pub open spec fn line_entries(lines: Seq<Seq<char>>) -> Seq<(Seq<char>, Seq<char>)>
    decreases lines.len(),
{
    if lines.len() == 0 {
        Seq::empty()
    } else {
        let r = line_entries(lines.drop_last());
        let parts = split_on(lines.last(), ':');
        if parts.len() == 2 && is_key(parts[0]) && is_square_name(parts[1]) {
            r.push((parts[0], parts[1]))
        } else {
            r
        }
    }
}

/// The table that a book text describes, one `KEY:VALUE` entry per line.
pub open spec fn book_of_text(s: Seq<char>) -> Map<Seq<char>, Seq<char>> {
    table_of(line_entries(split_on(s, '\n')))
}

pub open spec fn views(v: Seq<String>) -> Seq<Seq<char>> {
    v.map_values(|x: String| x@)
}

/// The pieces of `s` between occurrences of `sep`.
fn split_chars(s: &str, sep: char) -> (r: Vec<String>)
    ensures
        views(r@) == split_on(s@, sep),
{
    let mut parts: Vec<String> = Vec::new();
    let mut cur = String::new();
    let mut it = s.chars();
    let ghost mut done: Seq<char> = Seq::empty();
    proof {
        broadcast use vstd::string::axiom_spec_iter;
    }
    loop
        invariant_except_break
            done + it.remaining() == s@,
            views(parts@).push(cur@) == split_on(done, sep),
        ensures
            done == s@,
            views(parts@).push(cur@) == split_on(done, sep),
        decreases s@.len() - done.len(),
    {
        let ghost before = it;
        match it.next() {
            Some(c) => {
                proof {
                    broadcast use vstd::string::next_postcondition;
                    assert(before.remaining().len() > 0);
                }
                let ghost old_views = views(parts@);
                let ghost old_cur = cur@;
                proof {
                    lemma_split_nonempty(done, sep);
                }
                if c == sep {
                    let piece = cur;
                    parts.push(piece);
                    cur = String::new();
                    assert(views(parts@) == old_views.push(old_cur));
                } else {
                    push_char(&mut cur, c);
                    assert(views(parts@).push(cur@) == old_views.push(old_cur).update(
                        old_views.len() as int,
                        old_cur.push(c),
                    ));
                }
                proof {
                    assert(done.push(c).drop_last() == done);
                    assert(done.push(c) + it.remaining() == s@);
                    done = done.push(c);
                }
            },
            None => {
                proof {
                    broadcast use vstd::string::next_postcondition;
                    assert(done == s@);
                }
                break ;
            },
        }
    }
    let ghost pv = views(parts@);
    parts.push(cur);
    assert(views(parts@) == pv.push(cur@));
    parts
}

/// Builds a book from text with one `KEY:VALUE` entry per line; a line that
/// is not exactly two colon-separated fields, the first made of square
/// names and the second the name of a square, is skipped. A later line replaces an earlier one of the same key.
pub fn initialize_book_dict(data: &str) -> (r: Book)
    ensures
        r.wf(),
        r.table() == book_of_text(data@),
{
    let lines = split_chars(data, '\n');
    let mut book_dict = Book::new();
    let ghost ls = split_on(data@, '\n');
    let mut i: usize = 0;
    while i < lines.len()
        invariant
            i <= lines@.len(),
            views(lines@) == ls,
            book_dict.wf(),
            book_dict.table() == table_of(line_entries(ls.subrange(0, i as int))),
        decreases lines@.len() - i,
    {
        let line = &lines[i];
        assert(ls[i as int] == line@);
        let parts = split_chars(line.as_str(), ':');
        let ghost prev = line_entries(ls.subrange(0, i as int));
        let ghost pv = views(parts@);
        assert(ls.subrange(0, i + 1).drop_last() == ls.subrange(0, i as int));
        assert(ls.subrange(0, i + 1).last() == line@);
        assert(pv == split_on(line@, ':'));
        assert(line_entries(ls.subrange(0, i + 1)) == if pv.len() == 2 && is_key(pv[0]) && is_square_name(pv[1]) {
            prev.push((pv[0], pv[1]))
        } else {
            prev
        });
        proof {
            if pv.len() == 2 && is_key(pv[0]) && is_square_name(pv[1]) {
                assert(prev.push((pv[0], pv[1])).drop_last() == prev);
            }
        }
        if parts.len() == 2 {
            let value = &parts[1];
            let v = value.as_str();
            assert(views(parts@)[1] == value@);
            assert(views(parts@)[0] == parts@[0]@);
            if v.unicode_len() == 2 {
                let c0 = v.get_char(0);
                let c1 = v.get_char(1);
                if 'A' <= c0 && c0 <= 'H' && '1' <= c1 && c1 <= '8' && key_ok(parts[0].as_str()) {
                    book_dict.insert(parts[0].clone(), parts[1].clone());
                }
            }
        }
        i = i + 1;
    }
    assert(ls.subrange(0, i as int) == ls);
    book_dict
}

// ---------------------------------------------------------------------------
// Rotation symmetry of the lookup.

/// A move under rotation `r`.
pub open spec fn rotate_move(m: Move, r: int) -> Move {
    match m {
        Move::Mv { x_ah, y_18 } => {
            let p = rotate_square(x_ah as int, y_18 as int, r);
            Move::Mv { x_ah: p.0 as u32, y_18: p.1 as u32 }
        },
        _ => m,
    }
}

/// A history with each move under rotation `r`.
pub open spec fn rotate_history(h: Seq<Move>, r: int) -> Seq<Move> {
    h.map_values(|m: Move| rotate_move(m, r))
}

/// A suggestion under rotation `r`.
pub open spec fn rotate_suggestion(m: Option<Move>, r: int) -> Option<Move> {
    match m {
        Some(mv) => Some(rotate_move(mv, r)),
        None => None,
    }
}

/// Rotation `r` followed by rotation `s`: the four rotations form a group in
/// which each is its own inverse.
pub open spec fn compose(r: int, s: int) -> int {
    if r == s {
        0
    } else if r == 0 {
        s
    } else if s == 0 {
        r
    } else {
        6 - r - s
    }
}

/// The book holds the key under rotation `r`.
pub open spec fn hit(t: Map<Seq<char>, Seq<char>>, key: Seq<char>, r: int) -> bool {
    t.contains_key(rotate_key(key, r))
}

/// The book holds the key under exactly one rotation.
pub open spec fn single_hit(t: Map<Seq<char>, Seq<char>>, key: Seq<char>) -> bool {
    exists|s: int|
        0 <= s < 4 && #[trigger] hit(t, key, s) && forall|q: int|
            0 <= q < 4 && #[trigger] hit(t, key, q) ==> q == s
}

proof fn lemma_name_roundtrip(x: int, y: int)
    requires
        1 <= x <= 8,
        1 <= y <= 8,
    ensures
        file_of(square_name(x, y)[0]) == x,
        rank_of(square_name(x, y)[1]) == y,
        'A' <= square_name(x, y)[0] <= 'H',
        '1' <= square_name(x, y)[1] <= '8',
{
}

proof fn lemma_rotate_pairs_shape(k: Seq<char>, n: nat, r: int)
    ensures
        rotate_pairs(k, n, r).len() == 2 * n,
        forall|i: int|
            0 <= i < n ==> rotate_pairs(k, n, r)[2 * i] == #[trigger] rotated_pair(k, i, r)[0]
                && rotate_pairs(k, n, r)[2 * i + 1] == rotated_pair(k, i, r)[1],
    decreases n,
{
    if n > 0 {
        lemma_rotate_pairs_shape(k, (n - 1) as nat, r);
        let a = rotate_pairs(k, (n - 1) as nat, r);
        let b = rotated_pair(k, n - 1, r);
        assert forall|i: int| 0 <= i < n implies rotate_pairs(k, n, r)[2 * i]
            == #[trigger] rotated_pair(k, i, r)[0] && rotate_pairs(k, n, r)[2 * i + 1]
            == rotated_pair(k, i, r)[1] by {
            if i < n - 1 {
                assert((a + b)[2 * i] == a[2 * i]);
                assert((a + b)[2 * i + 1] == a[2 * i + 1]);
            } else {
                assert((a + b)[2 * i] == b[0]);
                assert((a + b)[2 * i + 1] == b[1]);
            }
        }
    }
}

proof fn lemma_rotate_twice_pairs(k: Seq<char>, n: nat, r: int, s: int)
    requires
        is_key(k),
        n <= k.len() / 2,
        0 <= r < 4,
        0 <= s < 4,
    ensures
        rotate_pairs(rotate_key(k, r), n, s) == rotate_pairs(k, n, compose(r, s)),
    decreases n,
{
    if n > 0 {
        lemma_rotate_twice_pairs(k, (n - 1) as nat, r, s);
        let kr = rotate_key(k, r);
        lemma_rotate_pairs_shape(k, k.len() / 2, r);
        let i = n - 1;
        let x = file_of(k[2 * i]);
        let y = rank_of(k[2 * i + 1]);
        assert('A' <= k[2 * i] <= 'H' && '1' <= k[2 * i + 1] <= '8');
        let p = rotate_square(x, y, r);
        lemma_name_roundtrip(p.0, p.1);
        assert(kr[2 * i] == rotated_pair(k, i, r)[0]);
        assert(rotated_pair(kr, i, s) == rotated_pair(k, i, compose(r, s)));
    }
}

proof fn lemma_rotate_twice(k: Seq<char>, r: int, s: int)
    requires
        is_key(k),
        0 <= r < 4,
        0 <= s < 4,
    ensures
        rotate_key(rotate_key(k, r), s) == rotate_key(k, compose(r, s)),
{
    lemma_rotate_pairs_shape(k, k.len() / 2, r);
    lemma_rotate_twice_pairs(k, k.len() / 2, r, s);
}

proof fn lemma_rotate_pairs_prefix(a: Seq<char>, b: Seq<char>, n: nat, r: int)
    requires
        n <= a.len() / 2,
    ensures
        rotate_pairs(a + b, n, r) == rotate_pairs(a, n, r),
    decreases n,
{
    if n > 0 {
        lemma_rotate_pairs_prefix(a, b, (n - 1) as nat, r);
        let i = n - 1;
        assert((a + b)[2 * i] == a[2 * i]);
        assert((a + b)[2 * i + 1] == a[2 * i + 1]);
    }
}

proof fn lemma_rotated_history_key(h: Seq<Move>, r: int)
    requires
        history_on_board(h),
        0 <= r < 4,
    ensures
        history_key(rotate_history(h, r)) == rotate_key(history_key(h), r),
        history_on_board(rotate_history(h, r)),
    decreases h.len(),
{
    if h.len() > 0 {
        let init = h.drop_last();
        let m = h.last();
        assert(history_on_board(init)) by {
            assert forall|k: int| 0 <= k < init.len() implies match #[trigger] init[k] {
                Move::Mv { x_ah, y_18 } => 1 <= x_ah <= 8 && 1 <= y_18 <= 8,
                _ => true,
            } by {
                assert(init[k] == h[k]);
            }
        }
        assert(match h[h.len() - 1] {
            Move::Mv { x_ah, y_18 } => 1 <= x_ah <= 8 && 1 <= y_18 <= 8,
            _ => true,
        });
        lemma_rotated_history_key(init, r);
        lemma_history_key(init);
        let rh = rotate_history(h, r);
        assert(rh.drop_last() == rotate_history(init, r));
        assert(rh.last() == rotate_move(m, r));
        let a = history_key(init);
        let b = move_name(m);
        lemma_rotate_pairs_prefix(a, b, a.len() / 2, r);
        if let Move::Mv { x_ah, y_18 } = m {
            lemma_name_roundtrip(x_ah as int, y_18 as int);
            let p = rotate_square(x_ah as int, y_18 as int, r);
            assert((a + b).len() / 2 == a.len() / 2 + 1);
            assert((a + b)[a.len() as int] == b[0]);
            assert((a + b)[a.len() as int + 1] == b[1]);
            assert(rotated_pair(a + b, (a.len() / 2) as int, r) == square_name(p.0, p.1));
        } else {
            assert(b == Seq::<char>::empty());
            assert(a + b == a);
        }
        assert forall|k: int| 0 <= k < rh.len() implies match #[trigger] rh[k] {
            Move::Mv { x_ah, y_18 } => 1 <= x_ah <= 8 && 1 <= y_18 <= 8,
            _ => true,
        } by {
            assert(match h[k] {
                Move::Mv { x_ah, y_18 } => 1 <= x_ah <= 8 && 1 <= y_18 <= 8,
                _ => true,
            });
        }
    }
}

proof fn lemma_single_lookup(t: Map<Seq<char>, Seq<char>>, key: Seq<char>, s: int)
    requires
        0 <= s < 4,
        hit(t, key, s),
        forall|q: int| 0 <= q < 4 && #[trigger] hit(t, key, q) ==> q == s,
    ensures
        book_lookup(t, key) == probe(t, key, s),
{
    assert(lookup_upto(t, key, 4) == if hit(t, key, 3) {
        probe(t, key, 3)
    } else {
        lookup_upto(t, key, 3)
    });
    assert(lookup_upto(t, key, 3) == if hit(t, key, 2) {
        probe(t, key, 2)
    } else {
        lookup_upto(t, key, 2)
    });
    assert(lookup_upto(t, key, 2) == if hit(t, key, 1) {
        probe(t, key, 1)
    } else {
        lookup_upto(t, key, 1)
    });
    assert(lookup_upto(t, key, 1) == if hit(t, key, 0) {
        probe(t, key, 0)
    } else {
        lookup_upto(t, key, 0)
    });
}

/// Rotating the history rotates the suggestion: when the book holds the
/// history's key under exactly one rotation, looking up the history rotated
/// by `r` suggests the unrotated history's suggestion rotated by `r`, and both are
/// defined.
pub proof fn law_book_rotation(t: Map<Seq<char>, Seq<char>>, h: Seq<Move>, r: int)
    requires
        0 <= r < 4,
        history_on_board(h),
        forall|k: Seq<char>| #[trigger] t.contains_key(k) ==> is_square_name(t[k]),
        single_hit(t, history_key(h)),
    ensures
        book_lookup(t, history_key(h)) is Some,
        book_lookup(t, history_key(rotate_history(h, r))) == rotate_suggestion(
            book_lookup(t, history_key(h)),
            r,
        ),
{
    let key = history_key(h);
    lemma_history_key(h);
    lemma_rotated_history_key(h, r);
    let rkey = history_key(rotate_history(h, r));
    let s0 = choose|s: int|
        0 <= s < 4 && #[trigger] hit(t, key, s) && forall|q: int|
            0 <= q < 4 && #[trigger] hit(t, key, q) ==> q == s;
    lemma_single_lookup(t, key, s0);
    let s1 = compose(r, s0);
    assert forall|q: int| 0 <= q < 4 implies #[trigger] hit(t, rkey, q) == hit(t, key, compose(r, q)) by {
        lemma_rotate_twice(key, r, q);
    }
    assert(hit(t, rkey, s1)) by {
        assert(hit(t, rkey, s1) == hit(t, key, compose(r, s1)));
    }
    assert forall|q: int| 0 <= q < 4 && #[trigger] hit(t, rkey, q) implies q == s1 by {
        assert(hit(t, key, compose(r, q)));
    }
    lemma_single_lookup(t, rkey, s1);
    lemma_rotate_twice(key, r, s1);
    let v = t[rotate_key(key, s0)];
    assert(rotate_key(rkey, s1) == rotate_key(key, s0));
    assert(is_square_name(v));
    let x = file_of(v[0]);
    let y = rank_of(v[1]);
    let p = rotate_square(x, y, s0);
    assert(rotate_square(p.0, p.1, r) == rotate_square(x, y, s1));
}

} // verus!
