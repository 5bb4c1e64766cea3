use vstd::prelude::*;

use super::text::{
    chars_to_string, copy_range, is_digit, text_chars, digit_value, is_space, lemma_split_on_len, lemma_split_on_push,
    parse_usize, parse_usize_chars, split_on, trim, trim_chars, char_is_space,
};

verus! {

broadcast use vstd::string::group_string_axioms;

/// Why a text is not a run-length encoded Life pattern.
#[derive(Debug, Clone, Copy, PartialEq, Eq, Structural)]
pub enum RleError {
    /// No line holds pattern data.
    EmptyBody,
    /// The pattern data holds a character that is neither a count, `b`,
    /// `o`, `$`, `!` nor white space.
    UnsupportedToken(char),
}

impl RleError {
    /// The error as text: `RLE body is empty`, or `unsupported RLE token: `
    /// followed by the character.
    pub fn message(&self) -> (s: String)
        ensures
            *self == RleError::EmptyBody ==> s@ == "RLE body is empty"@,
            *self matches RleError::UnsupportedToken(c) ==> s@ == "unsupported RLE token: "@.push(c),
    {
        match self {
            RleError::EmptyBody => chars_to_string(text_chars("RLE body is empty")),
            RleError::UnsupportedToken(c) => {
                let mut v = text_chars("unsupported RLE token: ");
                v.push(*c);
                chars_to_string(v)
            },
        }
    }
}

/// What the header and data lines of an RLE text say so far.
pub struct RleLines {
    pub width: Option<usize>,
    pub height: Option<usize>,
    pub body: Seq<char>,
}

/// Nothing read yet.
pub open spec fn lines_start() -> RleLines {
    RleLines { width: None, height: None, body: Seq::empty() }
}

/// Reads one `key = value` part of a header line: key `x` sets the width,
/// key `y` the height (to `None` when the value is not a number), any other
/// key is ignored.
pub open spec fn read_header_part(st: RleLines, part: Seq<char>) -> RleLines {
    let pieces = split_on(part, '=');
    let key = trim(pieces[0]);
    let value = if pieces.len() > 1 {
        trim(pieces[1])
    } else {
        Seq::empty()
    };
    if key == seq!['x'] {
        RleLines { width: parse_usize(value), ..st }
    } else if key == seq!['y'] {
        RleLines { height: parse_usize(value), ..st }
    } else {
        st
    }
}

/// Reads the comma separated parts of a header line in order.
pub open spec fn read_header_parts(st: RleLines, parts: Seq<Seq<char>>) -> RleLines
    decreases parts.len(),
{
    if parts.len() == 0 {
        st
    } else {
        read_header_part(read_header_parts(st, parts.drop_last()), parts.last())
    }
}

/// Reads one line: blank lines and `#` comments are skipped, a line holding
/// both `=` and `,` is a header, any other line is pattern data, appended
/// without its surrounding white space.
pub open spec fn read_line(st: RleLines, line: Seq<char>) -> RleLines {
    let l = trim(line);
    if l.len() == 0 || l[0] == '#' {
        st
    } else if l.contains('=') && l.contains(',') {
        read_header_parts(st, split_on(l, ','))
    } else {
        RleLines { body: st.body + l, ..st }
    }
}

/// Reads the lines in order.
pub open spec fn read_lines(lines: Seq<Seq<char>>) -> RleLines
    decreases lines.len(),
{
    if lines.len() == 0 {
        lines_start()
    } else {
        read_line(read_lines(lines.drop_last()), lines.last())
    }
}

/// Header and data of an RLE text, read line by line.
pub open spec fn rle_lines(text: Seq<char>) -> RleLines {
    read_lines(split_on(text, '\n'))
}

/// State of the decoder of the pattern data.
pub struct RleScan {
    /// Column of the next cell.
    pub x: int,
    /// Row of the next cell.
    pub y: int,
    /// Run count read so far (0 when none).
    pub count: int,
    /// One past the rightmost live cell.
    pub max_x: int,
    /// One past the lowest row reached.
    pub max_y: int,
    /// Live cells in the order they were read.
    pub cells: Seq<(int, int)>,
    /// Whether `!` ended the data.
    pub done: bool,
    /// The first character that is not part of the format.
    pub bad: Option<char>,
}

/// The decoder before any data.
pub open spec fn scan_start() -> RleScan {
    RleScan {
        x: 0,
        y: 0,
        count: 0,
        max_x: 0,
        max_y: 0,
        cells: Seq::empty(),
        done: false,
        bad: None,
    }
}

/// Larger of two integers.
pub open spec fn max_int(a: int, b: int) -> int {
    if a >= b {
        a
    } else {
        b
    }
}

/// Decodes one character: digits build a run count; `b` skips that many
/// cells, `o` makes that many cells live, `$` moves down that many rows to
/// column 0 (a missing count means 1); `!` ends the data; white space is
/// ignored; anything else is an error. Once ended or failed, the state stays.
pub open spec fn scan_char(s: RleScan, ch: char) -> RleScan {
    if s.done || s.bad is Some {
        s
    } else if is_digit(ch) {
        RleScan { count: s.count * 10 + digit_value(ch), ..s }
    } else {
        let run = if s.count > 1 {
            s.count
        } else {
            1
        };
        let t = RleScan { count: 0, ..s };
        if ch == 'b' {
            RleScan { x: t.x + run, ..t }
        } else if ch == 'o' {
            RleScan {
                cells: t.cells + Seq::new(run as nat, |d: int| (t.x + d, t.y)),
                max_x: max_int(t.max_x, t.x + run),
                max_y: max_int(t.max_y, t.y + 1),
                x: t.x + run,
                ..t
            }
        } else if ch == '$' {
            RleScan { y: t.y + run, x: 0, max_y: max_int(t.max_y, t.y + run), ..t }
        } else if ch == '!' {
            RleScan { done: true, ..t }
        } else if is_space(ch) {
            t
        } else {
            RleScan { bad: Some(ch), ..t }
        }
    }
}

/// Decodes the data characters in order.
pub open spec fn scan(body: Seq<char>) -> RleScan
    decreases body.len(),
{
    if body.len() == 0 {
        scan_start()
    } else {
        scan_char(scan(body.drop_last()), body.last())
    }
}

/// Every position and count of the decoder fits in a `usize`.
pub open spec fn scan_state_fits(s: RleScan) -> bool {
    &&& s.x <= usize::MAX
    &&& s.y <= usize::MAX
    &&& s.count <= usize::MAX
    &&& s.max_x <= usize::MAX
    &&& s.max_y <= usize::MAX
}

/// Decoding `text` never leaves `usize` range (beyond it the decoder's
/// arithmetic would overflow).
pub open spec fn rle_fits(text: Seq<char>) -> bool {
    let body = rle_lines(text).body;
    forall|i: int| 0 <= i <= body.len() ==> scan_state_fits(#[trigger] scan(body.take(i)))
}

/// The result of reading `text`: the pattern's width, height and live cells,
/// or why it is not a pattern. Width and height are those of the header
/// where given, grown to hold every live cell.
pub open spec fn spec_parse(text: Seq<char>) -> Result<(usize, usize, Seq<(usize, usize)>), RleError> {
    let lines = rle_lines(text);
    if lines.body.len() == 0 {
        Err(RleError::EmptyBody)
    } else {
        let s = scan(lines.body);
        match s.bad {
            Some(c) => Err(RleError::UnsupportedToken(c)),
            None => {
                let hw = match lines.width {
                    Some(v) => v as int,
                    None => s.max_x,
                };
                let hh = match lines.height {
                    Some(v) => v as int,
                    None => s.max_y,
                };
                Ok(
                    (
                        max_int(hw, s.max_x) as usize,
                        max_int(hh, s.max_y) as usize,
                        s.cells.map_values(|p: (int, int)| (p.0 as usize, p.1 as usize)),
                    ),
                )
            },
        }
    }
}

/// A Life pattern read from run-length encoded text.
pub struct LifeRlePattern {
    pub width: usize,
    pub height: usize,
    pub cells: Vec<(usize, usize)>,
}

struct LineReader {
    width: Option<usize>,
    height: Option<usize>,
    body: Vec<char>,
}

impl LineReader {
    spec fn view(&self) -> RleLines {
        RleLines { width: self.width, height: self.height, body: self.body@ }
    }
}

fn contains_char(s: &Vec<char>, c: char) -> (b: bool)
    ensures
        b == s@.contains(c),
{
    let mut i: usize = 0;
    while i < s.len()
        invariant
            i <= s@.len(),
            forall|j: int| 0 <= j < i ==> s@[j] != c,
        decreases s@.len() - i,
    {
        if s[i] == c {
            return true;
        }
        i = i + 1;
    }
    false
}

/// The first and (when there is one) second `=`-separated piece of `part`.
fn key_and_value(part: &Vec<char>) -> (r: (Vec<char>, Option<Vec<char>>))
    ensures
        r.0@ == split_on(part@, '=')[0],
        r.1 is Some <==> split_on(part@, '=').len() > 1,
        r.1 matches Some(v) ==> v@ == split_on(part@, '=')[1],
{
    let mut key: Vec<char> = Vec::new();
    let mut value: Vec<char> = Vec::new();
    let mut seps: usize = 0;
    let mut i: usize = 0;
    while i < part.len()
        invariant
            i <= part@.len(),
            split_on(part@.take(i as int), '=').len() >= 1,
            seps <= i,
            seps == 0 ==> split_on(part@.take(i as int), '=').len() == 1,
            seps <= 2,
            seps == 0 ==> value@ == Seq::<char>::empty(),
            seps == 1 ==> split_on(part@.take(i as int), '=').len() == 2,
            seps == 2 ==> split_on(part@.take(i as int), '=').len() >= 3,
            key@ == split_on(part@.take(i as int), '=')[0],
            seps >= 1 ==> value@ == split_on(part@.take(i as int), '=')[1],
        decreases part@.len() - i,
    {
        let c = part[i];
        proof {
            assert(part@.take(i + 1) =~= part@.take(i as int).push(c));
            lemma_split_on_push(part@.take(i as int), c, '=');
            lemma_split_on_len(part@.take(i as int), '=');
        }
        if c == '=' {
            if seps < 2 {
                seps = seps + 1;
            }
        } else if seps == 0 {
            key.push(c);
        } else if seps == 1 {
            value.push(c);
        }
        i = i + 1;
    }
    assert(part@.take(part@.len() as int) =~= part@);
    if seps >= 1 {
        (key, Some(value))
    } else {
        (key, None)
    }
}

fn read_header_part_exec(reader: &mut LineReader, part: &Vec<char>)
    ensures
        final(reader).view() == read_header_part(old(reader).view(), part@),
{
    let (key_raw, value_raw) = key_and_value(part);
    let key = trim_chars(&key_raw);
    let value = match value_raw {
        Some(v) => trim_chars(&v),
        None => Vec::new(),
    };
    proof {
        lemma_split_on_len(part@, '=');
        if split_on(part@, '=').len() <= 1 {
            assert(value@ =~= Seq::<char>::empty());
        }
    }
    if key.len() == 1 && key[0] == 'x' {
        assert(key@ =~= seq!['x']);
        reader.width = parse_usize_chars(&value);
    } else if key.len() == 1 && key[0] == 'y' {
        assert(key@ =~= seq!['y']);
        reader.height = parse_usize_chars(&value);
    } else {
        assert(key@ != seq!['x'] && key@ != seq!['y']) by {
            if key@.len() == 1 {
                assert(key@[0] != 'x' && key@[0] != 'y');
            }
        }
    }
}

fn read_header_line(reader: &mut LineReader, line: &Vec<char>)
    ensures
        final(reader).view() == read_header_parts(old(reader).view(), split_on(line@, ',')),
{
    let ghost start = reader.view();
    let mut part: Vec<char> = Vec::new();
    let mut i: usize = 0;
    assert(line@.take(0) =~= Seq::<char>::empty());
    assert(split_on(line@.take(0), ',').drop_last() =~= Seq::<Seq<char>>::empty());
    while i < line.len()
        invariant
            i <= line@.len(),
            split_on(line@.take(i as int), ',').len() >= 1,
            reader.view() == read_header_parts(
                start,
                split_on(line@.take(i as int), ',').drop_last(),
            ),
            part@ == split_on(line@.take(i as int), ',').last(),
        decreases line@.len() - i,
    {
        let c = line[i];
        let ghost sp = split_on(line@.take(i as int), ',');
        proof {
            assert(line@.take(i + 1) =~= line@.take(i as int).push(c));
            lemma_split_on_push(line@.take(i as int), c, ',');
            lemma_split_on_len(line@.take(i + 1), ',');
        }
        if c == ',' {
            read_header_part_exec(reader, &part);
            part = Vec::new();
            proof {
                let sp2 = split_on(line@.take(i + 1), ',');
                assert(sp2.drop_last() =~= sp);
                assert(sp.drop_last().push(sp.last()) =~= sp);
                assert(sp.drop_last() =~= sp.drop_last());
            }
        } else {
            part.push(c);
            proof {
                let sp2 = split_on(line@.take(i + 1), ',');
                assert(sp2.drop_last() =~= sp.drop_last());
            }
        }
        i = i + 1;
    }
    assert(line@.take(line@.len() as int) =~= line@);
    read_header_part_exec(reader, &part);
    proof {
        let sp = split_on(line@, ',');
        lemma_split_on_len(line@, ',');
        assert(sp.drop_last().push(sp.last()) =~= sp);
    }
}

fn read_line_exec(reader: &mut LineReader, line: &Vec<char>)
    ensures
        final(reader).view() == read_line(old(reader).view(), line@),
{
    let l = trim_chars(line);
    if l.len() == 0 || l[0] == '#' {
        return;
    }
    if contains_char(&l, '=') && contains_char(&l, ',') {
        read_header_line(reader, &l);
    } else {
        let mut i: usize = 0;
        let ghost b0 = reader.body@;
        while i < l.len()
            invariant
                i <= l@.len(),
                reader.body@ == b0 + l@.take(i as int),
                reader.width == old(reader).width,
                reader.height == old(reader).height,
                b0 == old(reader).body@,
            decreases l@.len() - i,
        {
            reader.body.push(l[i]);
            assert(b0 + l@.take(i + 1) =~= (b0 + l@.take(i as int)).push(l@[i as int]));
            i = i + 1;
        }
        assert(l@.take(l@.len() as int) =~= l@);
    }
}

fn read_text(chars: &Vec<char>) -> (r: LineReader)
    ensures
        r.view() == read_lines(split_on(chars@, '\n')),
{
    let mut reader = LineReader { width: None, height: None, body: Vec::new() };
    let mut line: Vec<char> = Vec::new();
    let mut i: usize = 0;
    assert(chars@.take(0) =~= Seq::<char>::empty());
    assert(split_on(chars@.take(0), '\n').drop_last() =~= Seq::<Seq<char>>::empty());
    assert(reader.view() =~= lines_start());
    while i < chars.len()
        invariant
            i <= chars@.len(),
            split_on(chars@.take(i as int), '\n').len() >= 1,
            reader.view() == read_lines(split_on(chars@.take(i as int), '\n').drop_last()),
            line@ == split_on(chars@.take(i as int), '\n').last(),
        decreases chars@.len() - i,
    {
        let c = chars[i];
        let ghost sp = split_on(chars@.take(i as int), '\n');
        proof {
            assert(chars@.take(i + 1) =~= chars@.take(i as int).push(c));
            lemma_split_on_push(chars@.take(i as int), c, '\n');
            lemma_split_on_len(chars@.take(i + 1), '\n');
        }
        if c == '\n' {
            read_line_exec(&mut reader, &line);
            line = Vec::new();
            proof {
                let sp2 = split_on(chars@.take(i + 1), '\n');
                assert(sp2.drop_last() =~= sp);
                assert(sp.drop_last().push(sp.last()) =~= sp);
            }
        } else {
            line.push(c);
            proof {
                let sp2 = split_on(chars@.take(i + 1), '\n');
                assert(sp2.drop_last() =~= sp.drop_last());
            }
        }
        i = i + 1;
    }
    assert(chars@.take(chars@.len() as int) =~= chars@);
    read_line_exec(&mut reader, &line);
    proof {
        let sp = split_on(chars@, '\n');
        lemma_split_on_len(chars@, '\n');
        assert(sp.drop_last().push(sp.last()) =~= sp);
    }
    reader
}

/// `v` holds the cells of `s` in the same order.
pub open spec fn cells_match(v: Seq<(usize, usize)>, s: Seq<(int, int)>) -> bool {
    &&& v.len() == s.len()
    &&& forall|k: int| 0 <= k < v.len() ==> v[k].0 == s[k].0 && v[k].1 == s[k].1
}

proof fn lemma_scan_step(body: Seq<char>, i: int)
    requires
        0 <= i < body.len(),
    ensures
        scan(body.take(i + 1)) == scan_char(scan(body.take(i)), body[i]),
{
    assert(body.take(i + 1).drop_last() =~= body.take(i));
}

/// Once the decoder has stopped, later characters change nothing.
proof fn lemma_scan_stops(body: Seq<char>, k: int)
    requires
        0 <= k <= body.len(),
        scan(body.take(k)).done || scan(body.take(k)).bad is Some,
    ensures
        scan(body) == scan(body.take(k)),
    decreases body.len(),
{
    if k == body.len() {
        assert(body.take(k) =~= body);
    } else {
        assert(body.drop_last().take(k) =~= body.take(k));
        lemma_scan_stops(body.drop_last(), k);
    }
}

/// Whether decoding `text` stays within `usize` range (`rle_fits`), so that
/// `LifeRlePattern::parse` may be called on it.
pub fn rle_text_fits(text: &str) -> (b: bool)
    ensures
        b == rle_fits(text@),
{
    let chars = text_chars(text);
    let reader = read_text(&chars);
    let ghost lines = rle_lines(text@);
    assert(reader.view() == lines);
    let body = reader.body;
    let n = body.len();
    let max: u128 = usize::MAX as u128;
    let mut x: usize = 0;
    let mut y: usize = 0;
    let mut count: usize = 0;
    let mut max_x: usize = 0;
    let mut max_y: usize = 0;
    let mut stopped = false;
    let mut i: usize = 0;
    assert(body@.take(0) =~= Seq::<char>::empty());
    while i < n && !stopped
        invariant
            n == body@.len(),
            lines == rle_lines(text@),
            body@ == lines.body,
            i <= n,
            max == usize::MAX,
            forall|j: int| 0 <= j <= i ==> scan_state_fits(#[trigger] scan(body@.take(j))),
            ({
                let s = scan(body@.take(i as int));
                &&& stopped == (s.done || s.bad is Some)
                &&& s.x == x
                &&& s.y == y
                &&& s.count == count
                &&& s.max_x == max_x
                &&& s.max_y == max_y
            }),
        decreases n - i,
    {
        let ch = body[i];
        proof {
            lemma_scan_step(body@, i as int);
        }
        let ghost t = scan(body@.take(i + 1));
        if '0' <= ch && ch <= '9' {
            let d = (ch as u32 - '0' as u32) as u128;
            assert(d as int == digit_value(ch));
            let nc: u128 = count as u128 * 10 + d;
            if nc > max {
                assert(!scan_state_fits(t));
                return false;
            }
            count = nc as usize;
        } else {
            let run = if count > 1 {
                count
            } else {
                1
            };
            count = 0;
            if ch == 'b' {
                let nx: u128 = x as u128 + run as u128;
                if nx > max {
                    assert(!scan_state_fits(t));
                    return false;
                }
                x = nx as usize;
            } else if ch == 'o' {
                let nx: u128 = x as u128 + run as u128;
                let ny: u128 = y as u128 + 1;
                if nx > max || ny > max {
                    assert(!scan_state_fits(t));
                    return false;
                }
                if nx as usize > max_x {
                    max_x = nx as usize;
                }
                if ny as usize > max_y {
                    max_y = ny as usize;
                }
                x = nx as usize;
            } else if ch == '$' {
                let ny: u128 = y as u128 + run as u128;
                if ny > max {
                    assert(!scan_state_fits(t));
                    return false;
                }
                y = ny as usize;
                x = 0;
                if y > max_y {
                    max_y = y;
                }
            } else if ch == '!' {
                stopped = true;
            } else if char_is_space(ch) {
            } else {
                assert(!is_digit(ch) && !is_space(ch));
                stopped = true;
            }
        }
        proof {
            assert(scan_state_fits(t));
            assert forall|j: int| 0 <= j <= i + 1 implies scan_state_fits(
                #[trigger] scan(body@.take(j)),
            ) by {
                if j == i + 1 {
                    assert(scan(body@.take(j)) == t);
                }
            }
        }
        i = i + 1;
    }
    proof {
        if stopped {
            assert forall|j: int| 0 <= j <= n implies scan_state_fits(#[trigger] scan(body@.take(j)))
                by {
                if j > i {
                    let bj = body@.take(j);
                    assert(bj.take(i as int) =~= body@.take(i as int));
                    lemma_scan_stops(bj, i as int);
                }
            }
        }
    }
    true
}

impl LifeRlePattern {
    /// Reads a pattern in the run-length encoded Life format: `#` comment
    /// lines, an optional `x = .., y = ..` header, then data such as
    /// `bob$2bo$3o!`. See `spec_parse` for the exact reading.
    pub fn parse(text: &str) -> (r: Result<Self, RleError>)
        requires
            rle_fits(text@),
        ensures
            match r {
                Ok(p) => spec_parse(text@) == Ok::<(usize, usize, Seq<(usize, usize)>), RleError>(
                    (p.width, p.height, p.cells@),
                ),
                Err(e) => spec_parse(text@) == Err::<(usize, usize, Seq<(usize, usize)>), RleError>(
                    e,
                ),
            },
    {
        let chars = text_chars(text);
        let reader = read_text(&chars);
        let ghost lines = rle_lines(text@);
        assert(reader.view() == lines);
        let body = reader.body;
        if body.len() == 0 {
            return Err(RleError::EmptyBody);
        }
        let n = body.len();
        let mut cells: Vec<(usize, usize)> = Vec::new();
        let mut x: usize = 0;
        let mut y: usize = 0;
        let mut count: usize = 0;
        let mut max_x: usize = 0;
        let mut max_y: usize = 0;
        let mut stopped = false;
        let mut i: usize = 0;
        assert(body@.take(0) =~= Seq::<char>::empty());
        while i < n && !stopped
            invariant
                n == body@.len(),
                lines == rle_lines(text@),
                body@ == lines.body,
                i <= n,
                forall|j: int| 0 <= j <= n ==> scan_state_fits(#[trigger] scan(body@.take(j))),
                ({
                    let s = scan(body@.take(i as int));
                    &&& s.done == stopped
                    &&& s.bad is None
                    &&& s.x == x
                    &&& s.y == y
                    &&& s.count == count
                    &&& s.max_x == max_x
                    &&& s.max_y == max_y
                    &&& cells_match(cells@, s.cells)
                }),
            decreases n - i,
        {
            let ch = body[i];
            let ghost s = scan(body@.take(i as int));
            proof {
                lemma_scan_step(body@, i as int);
                assert(scan_state_fits(scan(body@.take(i + 1))));
            }
            if '0' <= ch && ch <= '9' {
                let d = (ch as u32 - '0' as u32) as usize;
                assert(d as int == digit_value(ch));
                count = count * 10 + d;
            } else {
                let run = if count > 1 {
                    count
                } else {
                    1
                };
                count = 0;
                if ch == 'b' {
                    x = x + run;
                } else if ch == 'o' {
                    let ghost c0 = cells@;
                    let mut dx: usize = 0;
                    while dx < run
                        invariant
                            dx <= run,
                            x + run <= usize::MAX,
                            cells@.len() == c0.len() + dx,
                            forall|k: int| 0 <= k < c0.len() ==> cells@[k] == c0[k],
                            forall|k: int|
                                c0.len() <= k < c0.len() + dx ==> #[trigger] cells@[k] == ((x + (k
                                    - c0.len())) as usize, y),
                        decreases run - dx,
                    {
                        cells.push((x + dx, y));
                        dx = dx + 1;
                    }
                    proof {
                        let t = scan(body@.take(i + 1));
                        assert(t.cells =~= s.cells + Seq::new(
                            run as nat,
                            |d: int| (s.x + d, s.y),
                        ));
                        assert forall|k: int| 0 <= k < cells@.len() implies cells@[k].0
                            == t.cells[k].0 && cells@[k].1 == t.cells[k].1 by {
                            if k >= c0.len() {
                                assert(t.cells[k] == (s.x + (k - c0.len()), s.y));
                            }
                        }
                    }
                    if x + run > max_x {
                        max_x = x + run;
                    }
                    if y + 1 > max_y {
                        max_y = y + 1;
                    }
                    x = x + run;
                } else if ch == '$' {
                    y = y + run;
                    x = 0;
                    if y > max_y {
                        max_y = y;
                    }
                } else if ch == '!' {
                    stopped = true;
                } else if char_is_space(ch) {
                } else {
                    proof {
                        assert(!is_digit(ch) && !is_space(ch));
                        assert(scan(body@.take(i + 1)).bad == Some(ch));
                        lemma_scan_stops(body@, i + 1);
                        assert(scan(lines.body).bad == Some(ch));
                    }
                    return Err(RleError::UnsupportedToken(ch));
                }
            }
            i = i + 1;
        }
        let ghost s = scan(body@);
        proof {
            if stopped {
                lemma_scan_stops(body@, i as int);
            } else {
                assert(body@.take(n as int) =~= body@);
            }
            assert(scan_state_fits(scan(body@.take(n as int))));
            assert(body@.take(n as int) =~= body@);
        }
        let hw = match reader.width {
            Some(v) => v,
            None => max_x,
        };
        let hh = match reader.height {
            Some(v) => v,
            None => max_y,
        };
        let width = if hw >= max_x {
            hw
        } else {
            max_x
        };
        let height = if hh >= max_y {
            hh
        } else {
            max_y
        };
        proof {
            assert(cells@ =~= s.cells.map_values(|p: (int, int)| (p.0 as usize, p.1 as usize)));
        }
        Ok(LifeRlePattern { width, height, cells })
    }
}

/// Decimal digits of `n`, most significant first, without leading zeros.
pub open spec fn decimal(n: nat) -> Seq<char>
    decreases n,
{
    if n < 10 {
        seq![digit_char(n)]
    } else {
        decimal(n / 10).push(digit_char(n % 10))
    }
}

/// The ASCII digit for `d` below 10.
pub open spec fn digit_char(d: nat) -> char {
    (('0' as nat) + d) as char
}

/// One run of `n` equal cells written as `c` preceded by `n` when `n > 1`.
pub open spec fn run_token(c: char, n: nat) -> Seq<char> {
    if n > 1 {
        decimal(n).push(c)
    } else {
        seq![c]
    }
}

/// The character that stands for a cell state: `o` live, `b` dead.
pub open spec fn cell_char(alive: bool) -> char {
    if alive {
        'o'
    } else {
        'b'
    }
}

/// The maximal runs of equal cells of `row`, left to right, as
/// `(state, length)`.
pub open spec fn row_runs(row: Seq<bool>) -> Seq<(bool, nat)>
    decreases row.len(),
{
    if row.len() == 0 {
        Seq::empty()
    } else {
        let r = row_runs(row.drop_last());
        if r.len() > 0 && r.last().0 == row.last() {
            r.update(r.len() - 1, (r.last().0, r.last().1 + 1))
        } else {
            r.push((row.last(), 1nat))
        }
    }
}

/// The runs written one after the other.
pub open spec fn encode_runs(runs: Seq<(bool, nat)>) -> Seq<char>
    decreases runs.len(),
{
    if runs.len() == 0 {
        Seq::empty()
    } else {
        encode_runs(runs.drop_last()) + run_token(cell_char(runs.last().0), runs.last().1)
    }
}

/// A row of cells in run-length form.
pub open spec fn encode_row(row: Seq<bool>) -> Seq<char> {
    encode_runs(row_runs(row))
}

pub(crate) proof fn lemma_decimal_digits(n: nat)
    ensures
        decimal(n).len() >= 1,
        forall|i: int| 0 <= i < decimal(n).len() ==> is_digit(#[trigger] decimal(n)[i]),
    decreases n,
{
    if n >= 10 {
        lemma_decimal_digits(n / 10);
    }
}

/// Appends the decimal digits of `n`.
pub fn push_decimal(out: &mut Vec<char>, n: usize)
    ensures
        final(out)@ == old(out)@ + decimal(n as nat),
{
    let mut digits: Vec<char> = Vec::new();
    let mut m = n;
    loop
        invariant_except_break
            m <= n,
            decimal(n as nat) == decimal(m as nat) + digits@.reverse(),
        ensures
            decimal(n as nat) == digits@.reverse(),
        decreases m,
    {
        let d = (m % 10) as u32;
        let c = char_from_digit(d);
        if m < 10 {
            assert(decimal(m as nat) == seq![c]);
            digits.push(c);
            assert(digits@.reverse() =~= seq![c] + digits@.drop_last().reverse());
            assert(decimal(n as nat) =~= digits@.reverse());
            break;
        }
        assert(decimal(m as nat) == decimal((m / 10) as nat).push(c));
        digits.push(c);
        assert(decimal(n as nat) =~= decimal((m / 10) as nat) + digits@.reverse()) by {
            assert(digits@.reverse() =~= seq![c] + digits@.drop_last().reverse());
        }
        m = m / 10;
    }
    let ghost start = out@;
    let mut k = digits.len();
    while k > 0
        invariant
            k <= digits@.len(),
            out@ == start + digits@.reverse().take(digits@.len() - k),
        decreases k,
    {
        k = k - 1;
        out.push(digits[k]);
        assert(digits@.reverse().take(digits@.len() - k) =~= digits@.reverse().take(
            digits@.len() - k - 1,
        ).push(digits@[k as int]));
    }
    assert(digits@.reverse().take(digits@.len() as int) =~= digits@.reverse());
}

fn char_from_digit(d: u32) -> (c: char)
    requires
        d < 10,
    ensures
        c == digit_char(d as nat),
{
    if d == 0 {
        '0'
    } else if d == 1 {
        '1'
    } else if d == 2 {
        '2'
    } else if d == 3 {
        '3'
    } else if d == 4 {
        '4'
    } else if d == 5 {
        '5'
    } else if d == 6 {
        '6'
    } else if d == 7 {
        '7'
    } else if d == 8 {
        '8'
    } else {
        '9'
    }
}

/// Appends one pending run, if there is one.
pub fn append_rle_run(out: &mut Vec<char>, ch: Option<char>, count: usize)
    ensures
        final(out)@ == old(out)@ + match ch {
            None => Seq::empty(),
            Some(c) => run_token(c, count as nat),
        },
{
    match ch {
        None => {
            assert(old(out)@ + Seq::<char>::empty() =~= old(out)@);
        },
        Some(c) => {
            let ghost start = out@;
            if count > 1 {
                push_decimal(out, count);
            }
            out.push(c);
            assert(out@ =~= start + run_token(c, count as nat));
        },
    }
}

} // verus!
