//! The commands a user types, and the text messages peers exchange.

use vstd::prelude::*;
use vstd::string::*;
use crate::text::{
    chars_of, find_space, find_space_from, is_space, same_text, skip_space,
    skip_space_from, trim_end_len, trim_end_length, trim_spec,
};

verus! {

/// What a line typed by the user asks for.
pub enum UserCommand {
    /// `@upload`: pick a file and send its chunks to peers.
    Upload,
    /// `@check_scores`: show the peers' scores.
    CheckScores,
    /// `@check_logs`: show the file transfer log.
    CheckLogs,
    /// `@download <file>`: ask the network for a file.
    Download(String),
    /// `@download` followed by nothing but white space.
    DownloadUsage,
    /// Anything else: a message to every peer.
    Message(String),
}

pub open spec fn upload_word() -> Seq<char> {
    seq!['@', 'u', 'p', 'l', 'o', 'a', 'd']
}

pub open spec fn check_scores_word() -> Seq<char> {
    seq!['@', 'c', 'h', 'e', 'c', 'k', '_', 's', 'c', 'o', 'r', 'e', 's']
}

pub open spec fn check_logs_word() -> Seq<char> {
    seq!['@', 'c', 'h', 'e', 'c', 'k', '_', 'l', 'o', 'g', 's']
}

/// `@download` and a space.
pub open spec fn download_word() -> Seq<char> {
    seq!['@', 'd', 'o', 'w', 'n', 'l', 'o', 'a', 'd', ' ']
}

/// The start of the second word of `t` (the length where there is none).
pub open spec fn second_word_start(t: Seq<char>) -> int {
    skip_space(t, 10)
}

/// The second word of `t`: the run of characters that are not white space
/// after the first word.
pub open spec fn second_word(t: Seq<char>) -> Seq<char> {
    t.subrange(second_word_start(t), find_space(t, second_word_start(t)))
}

/// What the line `input` asks for, decided on the line without white space at
/// either end.
pub open spec fn command_matches(input: Seq<char>, cmd: UserCommand) -> bool {
    let t = trim_spec(input);
    match cmd {
        UserCommand::Upload => t == upload_word(),
        UserCommand::CheckScores => t == check_scores_word(),
        UserCommand::CheckLogs => t == check_logs_word(),
        UserCommand::Download(name) => {
            &&& t != upload_word() && t != check_scores_word() && t != check_logs_word()
            &&& download_word().is_prefix_of(t)
            &&& second_word_start(t) < t.len()
            &&& name@ == second_word(t)
        },
        UserCommand::DownloadUsage => {
            &&& t != upload_word() && t != check_scores_word() && t != check_logs_word()
            &&& download_word().is_prefix_of(t)
            &&& second_word_start(t) >= t.len()
        },
        UserCommand::Message(text) => {
            &&& t != upload_word() && t != check_scores_word() && t != check_logs_word()
            &&& !download_word().is_prefix_of(t)
            &&& text@ == t
        },
    }
}

/// Reads a line typed by the user.
pub fn parse_user_command(input: &str) -> (res: UserCommand)
    ensures
        command_matches(input@, res),
{
    proof {
        reveal_strlit("@upload");
        reveal_strlit("@check_scores");
        reveal_strlit("@check_logs");
        reveal_strlit("@download ");
        assert("@upload"@ =~= upload_word());
        assert("@check_scores"@ =~= check_scores_word());
        assert("@check_logs"@ =~= check_logs_word());
        assert("@download "@ =~= download_word());
    }
    let v = chars_of(input);
    let start = skip_space_from(&v, 0);
    let end = trim_end_length(&v);
    proof {
        lemma_trim_bounds(v@);
    }
    let trimmed: &str = if start >= end {
        input.substring_char(0, 0)
    } else {
        input.substring_char(start, end)
    };
    assert(trimmed@ =~= trim_spec(input@));
    if same_text(trimmed, "@upload") {
        return UserCommand::Upload;
    }
    if same_text(trimmed, "@check_scores") {
        return UserCommand::CheckScores;
    }
    if same_text(trimmed, "@check_logs") {
        return UserCommand::CheckLogs;
    }
    let t = chars_of(trimmed);
    let word = chars_of("@download ");
    let mut is_download = t.len() >= 10;
    let mut k: usize = 0;
    while is_download && k < 10
        invariant
            word@ == download_word(),
            k <= 10,
            is_download ==> t@.len() >= 10 && forall|j: int| 0 <= j < k ==> t@[j] == word@[j],
            !is_download ==> !download_word().is_prefix_of(t@),
        decreases 10 - k,
    {
        if t[k] != word[k] {
            is_download = false;
            assert(t@.subrange(0, 10)[k as int] != download_word()[k as int]);
        }
        k = k + 1;
    }
    if !is_download {
        return UserCommand::Message(String::from_str(trimmed));
    }
    assert(t@.subrange(0, 10) =~= download_word());
    let a = skip_space_from(&t, 10);
    if a >= t.len() {
        return UserCommand::DownloadUsage;
    }
    let b = find_space_from(&t, a);
    UserCommand::Download(String::from_str(trimmed.substring_char(a, b)))
}

proof fn lemma_trim_bounds(s: Seq<char>)
    ensures
        0 <= skip_space(s, 0) <= s.len(),
        0 <= trim_end_len(s) <= s.len(),
{
    lemma_skip_space_bound(s, 0);
    lemma_trim_end_bound(s);
}

proof fn lemma_skip_space_bound(s: Seq<char>, i: int)
    requires
        0 <= i,
    ensures
        i <= skip_space(s, i) <= s.len() || (i > s.len() && skip_space(s, i) == s.len()),
    decreases s.len() - i,
{
    if i < s.len() && is_space(s[i]) {
        lemma_skip_space_bound(s, i + 1);
    }
}

proof fn lemma_trim_end_bound(s: Seq<char>)
    ensures
        0 <= trim_end_len(s) <= s.len(),
    decreases s.len(),
{
    if s.len() > 0 && is_space(s.last()) {
        lemma_trim_end_bound(s.drop_last());
    }
}

/// A visible ASCII character: anything from `!` to `~`.
pub open spec fn visible_ascii(c: char) -> bool {
    0x21 <= (c as u32) <= 0x7E
}

/// White space is what `char::is_whitespace` answers: the space, tab, line
/// feed, vertical tab, form feed and carriage return are white space, and no
/// visible ASCII character (letters, digits, `-`, `_`, `.` and the other
/// punctuation) is.
pub proof fn white_space_is_unicode_white_space(c: char)
    ensures
        visible_ascii(c) ==> !is_space(c),
        (c == ' ' || c == '\t' || c == '\n' || c == '\r' || c == '\x0B' || c == '\x0C') ==> is_space(c),
        (c as u32) < 0x80 && is_space(c) ==> (c == ' ' || 0x9 <= (c as u32) <= 0xD),
{
}

/// The code points of Unicode's White_Space property, the characters that
/// `char::is_whitespace` accepts.
pub open spec fn unicode_white_space() -> Seq<u32> {
    seq![
        0x9u32, 0xA, 0xB, 0xC, 0xD, 0x20, 0x85, 0xA0, 0x1680, 0x2000, 0x2001, 0x2002, 0x2003,
        0x2004, 0x2005, 0x2006, 0x2007, 0x2008, 0x2009, 0x200A, 0x2028, 0x2029, 0x202F, 0x205F,
        0x3000,
    ]
}

/// A character counts as white space exactly when its code point is one of
/// Unicode's White_Space code points.
pub proof fn white_space_is_the_unicode_list(c: char)
    ensures
        is_space(c) <==> unicode_white_space().contains(c as u32),
{
    let u = c as u32;
    let l = unicode_white_space();
    if is_space(c) {
        if 0x9 <= u <= 0xD {
            assert(l[u - 0x9] == u);
        } else if 0x2000 <= u <= 0x200A {
            assert(l[u - 0x2000 + 9] == u);
        } else if u == 0x20 {
            assert(l[5] == u);
        } else if u == 0x85 {
            assert(l[6] == u);
        } else if u == 0xA0 {
            assert(l[7] == u);
        } else if u == 0x1680 {
            assert(l[8] == u);
        } else if u == 0x2028 {
            assert(l[20] == u);
        } else if u == 0x2029 {
            assert(l[21] == u);
        } else if u == 0x202F {
            assert(l[22] == u);
        } else if u == 0x205F {
            assert(l[23] == u);
        } else {
            assert(l[24] == u);
        }
    }
    if l.contains(u) {
        let k = choose|k: int| 0 <= k < l.len() && l[k] == u;
        assert(0 <= k < 25);
    }
}

proof fn lemma_find_space_none(s: Seq<char>, i: int)
    requires
        0 <= i <= s.len(),
        forall|j: int| i <= j < s.len() ==> visible_ascii(#[trigger] s[j]),
    ensures
        find_space(s, i) == s.len(),
    decreases s.len() - i,
{
    if i < s.len() {
        white_space_is_unicode_white_space(s[i]);
        lemma_find_space_none(s, i + 1);
    }
}

/// `@download` followed by a file name made of visible ASCII characters,
/// such as `year-report.pdf`, asks for exactly that file, whatever white
/// space surrounds the line.
pub proof fn download_names_the_whole_word(
    before: Seq<char>,
    w: Seq<char>,
    after: Seq<char>,
    cmd: UserCommand,
)
    requires
        w.len() > 0,
        forall|j: int| 0 <= j < w.len() ==> visible_ascii(#[trigger] w[j]),
        forall|j: int| 0 <= j < before.len() ==> #[trigger] before[j] == ' ',
        forall|j: int| 0 <= j < after.len() ==> #[trigger] after[j] == ' ',
        command_matches(before + download_word() + w + after, cmd),
    ensures
        cmd matches UserCommand::Download(name) && name@ == w,
{
    let t0 = download_word() + w;
    let input = before + t0 + after;
    assert(before + download_word() + w + after =~= input);
    assert(is_space(' '));
    assert(!is_space('@'));
    white_space_is_unicode_white_space(w.last());
    lemma_skip_prefix(input, before.len() as int);
    lemma_trim_suffix(input, after.len() as int);
    assert(input.subrange(before.len() as int, input.len() - after.len()) =~= t0);
    assert(trim_spec(input) == t0);
    assert(t0.subrange(0, 10) =~= download_word());
    white_space_is_unicode_white_space(w[0]);
    assert(t0[10] == w[0]);
    assert(second_word_start(t0) == 10);
    assert forall|j: int| 10 <= j < t0.len() implies visible_ascii(#[trigger] t0[j]) by {
        assert(t0[j] == w[j - 10]);
    }
    lemma_find_space_none(t0, 10);
    assert(second_word(t0) =~= w);
    assert(t0.len() != upload_word().len());
    assert(t0.len() != check_scores_word().len() || t0 != check_scores_word()) by {
        if t0.len() == check_scores_word().len() {
            assert(t0[2] == 'o' && check_scores_word()[2] == 'h');
        }
    }
    assert(t0.len() != check_logs_word().len() || t0 != check_logs_word()) by {
        if t0.len() == check_logs_word().len() {
            assert(t0[2] == 'o' && check_logs_word()[2] == 'h');
        }
    }
    assert(t0 != upload_word());
    assert(t0 != check_scores_word());
    assert(t0 != check_logs_word());
    assert(download_word().is_prefix_of(t0));
    assert(second_word_start(t0) < t0.len());
}

/// A line typed with no white space at either end and not asking for a
/// command is sent as it was typed, to the last character (a trailing `-`
/// included).
pub proof fn message_keeps_its_ends(input: Seq<char>, cmd: UserCommand)
    requires
        input.len() > 0,
        visible_ascii(input[0]),
        visible_ascii(input.last()),
        command_matches(input, cmd),
        cmd is Message,
    ensures
        cmd matches UserCommand::Message(text) && text@ == input,
{
    white_space_is_unicode_white_space(input[0]);
    white_space_is_unicode_white_space(input.last());
    assert(input.subrange(0, input.len() as int) =~= input);
}

proof fn lemma_skip_prefix(s: Seq<char>, k: int)
    requires
        0 <= k < s.len(),
        forall|j: int| 0 <= j < k ==> #[trigger] s[j] == ' ',
        !is_space(s[k]),
    ensures
        skip_space(s, 0) == k,
{
    lemma_skip_from(s, 0, k);
}

proof fn lemma_skip_from(s: Seq<char>, i: int, k: int)
    requires
        0 <= i <= k < s.len(),
        forall|j: int| 0 <= j < k ==> #[trigger] s[j] == ' ',
        !is_space(s[k]),
    ensures
        skip_space(s, i) == k,
    decreases k - i,
{
    if i < k {
        assert(s[i] == ' ');
        assert(is_space(' '));
        lemma_skip_from(s, i + 1, k);
    }
}

proof fn lemma_trim_suffix(s: Seq<char>, k: int)
    requires
        0 <= k < s.len(),
        forall|j: int| s.len() - k <= j < s.len() ==> #[trigger] s[j] == ' ',
        !is_space(s[s.len() - k - 1]),
    ensures
        trim_end_len(s) == s.len() - k,
    decreases k,
{
    if k > 0 {
        assert(s.last() == ' ');
        assert(is_space(' '));
        let d = s.drop_last();
        assert forall|j: int| d.len() - (k - 1) <= j < d.len() implies #[trigger] d[j] == ' ' by {
            assert(d[j] == s[j]);
        }
        assert(d[d.len() - (k - 1) - 1] == s[s.len() - k - 1]);
        lemma_trim_suffix(d, k - 1);
    }
}

/// The text sent to every peer for a message: the password, a colon and the
/// message.
pub open spec fn text_payload_spec(password: Seq<char>, text: Seq<char>) -> Seq<char> {
    password + seq![':'] + text
}

/// The text sent to every peer for the message `text`.
pub fn text_payload(password: &str, text: &str) -> (res: String)
    ensures
        res@ == text_payload_spec(password@, text@),
{
    proof {
        reveal_strlit(":");
        assert(":"@ =~= seq![':']);
    }
    let mut s = String::from_str(password);
    s.append(":");
    s.append(text);
    s
}

/// The texts whose message can be read: where they start with the password,
/// an ASCII character follows it.
pub open spec fn text_readable(content: Seq<char>, password: Seq<char>) -> bool {
    password.is_prefix_of(content) ==> content.len() > password.len() && (content[password.len()
        as int] as u32) < 128
}

/// The message in a received text: what follows the password and the one
/// character after it, where the text starts with the password; `None` where
/// it does not.
pub fn text_body(content: &str, password: &str) -> (res: Option<String>)
    requires
        text_readable(content@, password@),
    ensures
        match res {
            Some(body) => password@.is_prefix_of(content@) && body@ == content@.skip(
                password@.len() + 1 as int,
            ),
            None => !password@.is_prefix_of(content@),
        },
{
    let c = chars_of(content);
    let p = chars_of(password);
    if !crate::text::has_prefix(&c, &p) {
        return None;
    }
    let n = content.unicode_len();
    let body = content.substring_char(p.len() + 1, n);
    assert(body@ =~= content@.skip(password@.len() + 1 as int));
    Some(String::from_str(body))
}

/// A message sent by a peer is read back by any peer with the same password
/// as the very text that was typed.
pub proof fn text_message_round_trip(password: Seq<char>, text: Seq<char>)
    ensures
        text_readable(text_payload_spec(password, text), password),
        password.is_prefix_of(text_payload_spec(password, text)),
        text_payload_spec(password, text).skip(password.len() + 1 as int) == text,
{
    let full = text_payload_spec(password, text);
    assert(full.subrange(0, password.len() as int) =~= password);
    assert(full[password.len() as int] == ':');
    assert(full.skip(password.len() + 1 as int) =~= text);
}


/// Whether the message in `content` can be read without fault (see
/// `text_readable`).
pub fn text_is_readable(content: &str, password: &str) -> (res: bool)
    ensures
        res == text_readable(content@, password@),
{
    let c = chars_of(content);
    let p = chars_of(password);
    if !crate::text::has_prefix(&c, &p) {
        return true;
    }
    c.len() > p.len() && (c[p.len()] as u32) < 128
}

} // verus!
