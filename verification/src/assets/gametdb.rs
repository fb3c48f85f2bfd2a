//! Looking up a game's title in GameTDB's flat `wiitdb.txt`.
//!
//! Every line is `GAMEID = Title`; blank lines and lines that start with `#` are passed over.

use vstd::prelude::*;

use crate::error::Result;
use crate::text::{
    chars_of, equal_ignoring_case, lemma_trimmed_is, same_ignoring_case, text_of, trim_range,
    trimmed, white,
};

verus! {

/// Where the database is fetched from.
pub const WIITDB_URL: &'static str = "https://www.gametdb.com/wiitdb.txt?LANG=EN";

/// The first `c` from `i` on; the length where there is none.
pub open spec fn find_from(chars: Seq<char>, c: char, i: int) -> int
    decreases chars.len() - i,
{
    if 0 <= i < chars.len() && chars[i] != c {
        find_from(chars, c, i + 1)
    } else {
        i
    }
}

/// The first `c` from `i` on; the length where there is none.
fn find(chars: &Vec<char>, c: char, i: usize) -> (r: usize)
    requires
        i <= chars@.len(),
    ensures
        r == find_from(chars@, c, i as int),
        i <= r <= chars@.len(),
{
    let mut k: usize = i;
    while k < chars.len()
        invariant
            i <= k <= chars@.len(),
            find_from(chars@, c, i as int) == find_from(chars@, c, k as int),
        decreases chars@.len() - k,
    {
        if chars[k] == c {
            return k;
        }
        k += 1;
    }
    k
}

/// The title of `id` in the lines from `start` on. The first line with that id gives it, the
/// case of letters ignored; a line without `=` ends the search.
pub open spec fn title_from(text: Seq<char>, id: Seq<char>, start: int) -> Option<Seq<char>>
    decreases text.len() + 1 - start,
{
    if start < 0 || start >= text.len() {
        None
    } else {
        let end = find_from(text, '\n', start);
        let line = trimmed(text.subrange(start, end));
        let split = find_from(line, '=', 0);
        if end < start || end > text.len() {
            None
        } else if line.len() == 0 || line[0] == '#' {
            title_from(text, id, end + 1)
        } else if split >= line.len() {
            None
        } else if same_ignoring_case(trimmed(line.subrange(0, split)), id) {
            Some(trimmed(line.subrange(split + 1, line.len() as int)))
        } else {
            title_from(text, id, end + 1)
        }
    }
}

/// The title of `id` in the database, if it is there.
pub fn parse_wiitdb(text: &str, id: &str) -> (r: Option<String>)
    ensures
        match r {
            Some(title) => title_from(text@, id@, 0) == Some(title@),
            None => title_from(text@, id@, 0) is None,
        },
{
    let chars: Vec<char> = chars_of(text);
    let wanted: Vec<char> = chars_of(id);
    let mut start: usize = 0;
    while start < chars.len()
        invariant
            chars@ == text@,
            wanted@ == id@,
            title_from(text@, id@, 0) == title_from(text@, id@, start as int),
        decreases chars@.len() - start,
    {
        let end: usize = find(&chars, '\n', start);
        let line: Vec<char> = trim_range(&chars, start, end);
        if line.len() > 0 && line[0] != '#' {
            let split: usize = find(&line, '=', 0);
            if split >= line.len() {
                return None;
            }
            let key: Vec<char> = trim_range(&line, 0, split);
            if equal_ignoring_case(&key, &wanted) {
                let value: Vec<char> = trim_range(&line, split + 1, line.len());
                return Some(text_of(&value));
            }
        }
        if end == chars.len() {
            assert(title_from(text@, id@, end + 1) is None);
            return None;
        }
        start = end + 1;
    }
    None
}

/// Look up the title of a game id. The lookup is best effort: where the database could not be
/// had there is no title, and no error.
pub fn lookup_title(database: Option<&str>, game_id6: &str) -> (r: Result<Option<String>>)
    ensures
        match r {
            Ok(Some(title)) => database matches Some(text) && title_from(text@, game_id6@, 0)
                == Some(title@),
            Ok(None) => database matches Some(text) ==> title_from(text@, game_id6@, 0) is None,
            Err(_) => false,
        },
{
    match database {
        Some(text) => Ok(parse_wiitdb(text, game_id6)),
        None => Ok(None),
    }
}

proof fn lemma_find_from(chars: Seq<char>, c: char, i: int)
    requires
        0 <= i <= chars.len(),
    ensures
        i <= find_from(chars, c, i) <= chars.len(),
        forall|k: int| i <= k < find_from(chars, c, i) ==> #[trigger] chars[k] != c,
        find_from(chars, c, i) < chars.len() ==> chars[find_from(chars, c, i)] == c,
    decreases chars.len() - i,
{
    if i < chars.len() && chars[i] != c {
        lemma_find_from(chars, c, i + 1);
    }
}

proof fn lemma_find_behind(front: Seq<char>, back: Seq<char>, c: char, i: int)
    requires
        0 <= i <= back.len(),
    ensures
        find_from(front + back, c, front.len() + i) == front.len() + find_from(back, c, i),
    decreases back.len() - i,
{
    if i < back.len() && back[i] != c {
        lemma_find_behind(front, back, c, i + 1);
    }
}

/// What stands in front of the lines that are searched makes no difference.
proof fn lemma_title_behind(front: Seq<char>, back: Seq<char>, id: Seq<char>, start: int)
    requires
        0 <= start,
    ensures
        title_from(front + back, id, front.len() + start) == title_from(back, id, start),
    decreases back.len() + 1 - start,
{
    if start < back.len() {
        let text = front + back;
        let end = find_from(back, '\n', start);
        lemma_find_from(back, '\n', start);
        lemma_find_behind(front, back, '\n', start);
        assert(text.subrange(front.len() + start, front.len() + end) =~= back.subrange(start, end));
        lemma_title_behind(front, back, id, end + 1);
    }
}

/// The lines are taken in order, each on its own: a blank one and one that starts with `#` are
/// passed over, one without `=` ends the search, one of another game is passed over, and the
/// first one of the game gives the title.
pub proof fn law_lines_are_taken_in_order(line: Seq<char>, rest: Seq<char>, id: Seq<char>, split: int)
    requires
        !line.contains('\n'),
    ensures
        ({
            let text = line + seq!['\n'] + rest;
            let plain = trimmed(line);
            &&& plain.len() == 0 || plain[0] == '#' ==> title_from(text, id, 0) == title_from(
                rest,
                id,
                0,
            )
            &&& plain.len() > 0 && plain[0] != '#' && !plain.contains('=') ==> title_from(
                text,
                id,
                0,
            ) is None
            &&& plain.len() > 0 && plain[0] != '#' && 0 <= split < plain.len() && plain[split]
                == '=' && !plain.subrange(0, split).contains('=') ==> title_from(text, id, 0)
                == if same_ignoring_case(trimmed(plain.subrange(0, split)), id) {
                Some(trimmed(plain.subrange(split + 1, plain.len() as int)))
            } else {
                title_from(rest, id, 0)
            }
        }),
{
    let text = line + seq!['\n'] + rest;
    let plain = trimmed(line);
    let front = line + seq!['\n'];
    let end = find_from(text, '\n', 0);
    lemma_find_from(text, '\n', 0);
    assert(text[line.len() as int] == '\n');
    assert(end <= line.len()) by {
        if line.len() < end {
            assert(text[line.len() as int] != '\n');
        }
    }
    assert(end == line.len()) by {
        if end < line.len() {
            assert(line[end] == '\n');
            assert(line.contains('\n'));
        }
    }
    assert(text.subrange(0, end) =~= line);
    assert(text =~= front + rest);
    lemma_title_behind(front, rest, id, 0);
    lemma_find_from(plain, '=', 0);
    let at = find_from(plain, '=', 0);
    if at < plain.len() {
        assert(plain[at] == '=');
        assert(plain.contains('='));
    }
    if 0 <= split < plain.len() && plain[split] == '=' && !plain.subrange(0, split).contains('=') {
        if at < split {
            assert(plain.subrange(0, split)[at] == '=');
        }
        if split < at {
            assert(plain[split] != '=');
        }
        assert(at == split);
    }
}

/// What a line states is found: behind `id = title` the title of `id` is `title`, in whichever
/// case the id is asked for.
pub proof fn law_stated_title_is_found(
    id: Seq<char>,
    title: Seq<char>,
    rest: Seq<char>,
    wanted: Seq<char>,
)
    requires
        id.len() > 0,
        id[0] != '#',
        !white(id[0]),
        !white(id.last()),
        !id.contains('='),
        !id.contains('\n'),
        title.len() > 0,
        !white(title[0]),
        !white(title.last()),
        !title.contains('\n'),
        same_ignoring_case(id, wanted),
    ensures
        title_from(id + seq![' ', '=', ' '] + title + seq!['\n'] + rest, wanted, 0) == Some(title),
{
    let line = id + seq![' ', '=', ' '] + title;
    let n = line.len() as int;
    let split = id.len() as int + 1;
    assert(!line.contains('\n')) by {
        if line.contains('\n') {
            let k = choose|k: int| 0 <= k < line.len() && line[k] == '\n';
            if k < id.len() {
                assert(id[k] == '\n');
            } else if k >= id.len() + 3 {
                assert(title[k - id.len() - 3] == '\n');
            }
        }
    }
    assert(line[0] == id[0]);
    assert(line[n - 1] == title.last());
    lemma_trimmed_is(line, 0, n);
    assert(line.subrange(0, n) =~= line);
    let left = line.subrange(0, split);
    assert(!left.contains('=')) by {
        if left.contains('=') {
            let k = choose|k: int| 0 <= k < left.len() && left[k] == '=';
            assert(k < id.len());
            assert(id[k] == '=');
        }
    }
    lemma_trimmed_is(left, 0, id.len() as int);
    assert(left.subrange(0, id.len() as int) =~= id);
    let right = line.subrange(split + 1, n);
    assert(right =~= seq![' '] + title);
    assert(right[1] == title[0] && right.last() == title.last());
    lemma_trimmed_is(right, 1, right.len() as int);
    assert(right.subrange(1, right.len() as int) =~= title);
    law_lines_are_taken_in_order(line, rest, wanted, split);
}

} // verus!
