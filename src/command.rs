//! Splitting a command line into words, with quotes and escapes.
use vstd::prelude::*;

verus! {

/// Which quote, if any, the scanner is inside.
#[derive(Debug, Clone, Copy, PartialEq, Eq, Structural)]
pub enum QuoteState {
    Plain,
    Backtick,
    SingleQuote,
    DoubleQuote,
}

/// Where the scanner stands after some characters: the quote it is in,
/// whether the last character was an unused backslash, the words found and
/// the word being read.
pub struct ScanView {
    pub quote: QuoteState,
    pub escaped: bool,
    pub words: Seq<Seq<char>>,
    pub buffer: Seq<char>,
}

/// The words so far, with the word being read added when it is not empty.
pub open spec fn flushed(words: Seq<Seq<char>>, buffer: Seq<char>) -> Seq<Seq<char>> {
    if buffer.len() > 0 {
        words.push(buffer)
    } else {
        words
    }
}

/// One character of scanning. A backslash takes the next character as it
/// is; outside quotes a space ends a word; a quote character opens a quote
/// outside quotes and closes its own quote, ending a word; anything else is
/// part of the word.
pub open spec fn scan_step(st: ScanView, c: char) -> ScanView {
    if st.escaped {
        ScanView { escaped: false, buffer: st.buffer.push(c), ..st }
    } else if c == '\\' {
        ScanView { escaped: true, ..st }
    } else if (c == ' ' && st.quote == QuoteState::Plain) || (c == '"' && st.quote
        == QuoteState::DoubleQuote) || (c == '\'' && st.quote == QuoteState::SingleQuote) || (c
        == '`' && st.quote == QuoteState::Backtick) {
        ScanView {
            quote: QuoteState::Plain,
            escaped: false,
            words: flushed(st.words, st.buffer),
            buffer: Seq::empty(),
        }
    } else if c == '"' && st.quote == QuoteState::Plain {
        ScanView { quote: QuoteState::DoubleQuote, ..st }
    } else if c == '\'' && st.quote == QuoteState::Plain {
        ScanView { quote: QuoteState::SingleQuote, ..st }
    } else if c == '`' && st.quote == QuoteState::Plain {
        ScanView { quote: QuoteState::Backtick, ..st }
    } else {
        ScanView { buffer: st.buffer.push(c), ..st }
    }
}

/// The scanner after the first `k` characters of `s`.
pub open spec fn scan(s: Seq<char>, k: nat) -> ScanView
    decreases k,
{
    if k == 0 || k > s.len() {
        ScanView {
            quote: QuoteState::Plain,
            escaped: false,
            words: Seq::empty(),
            buffer: Seq::empty(),
        }
    } else {
        scan_step(scan(s, (k - 1) as nat), s[k - 1])
    }
}

/// The words of command line `s`: those the scan found, then the last one
/// if it is not empty or no word was found at all.
pub open spec fn command_words(s: Seq<char>) -> Seq<Seq<char>> {
    let st = scan(s, s.len());
    if st.buffer.len() > 0 || st.words.len() == 0 {
        st.words.push(st.buffer)
    } else {
        st.words
    }
}

/// The characters of each string.
pub open spec fn words_view(v: Seq<String>) -> Seq<Seq<char>> {
    v.map_values(|w: String| w@)
}

/// Splits a command line into words: spaces separate words outside quotes,
/// a quoted part is one word, and a backslash makes the next character
/// plain. An empty or all-blank line gives one empty word.
pub fn parse_command_string(s: &str) -> (r: Vec<String>)
    ensures
        words_view(r@) == command_words(s@),
{
    let n = s.unicode_len();
    let mut cur_state = QuoteState::Plain;
    let mut prev_escape = false;
    let mut retvl: Vec<String> = Vec::new();
    let mut buffer = String::new();
    let mut i: usize = 0;
    assert(words_view(retvl@) =~= Seq::<Seq<char>>::empty());
    while i < n
        invariant
            n == s@.len(),
            i <= n,
            scan(s@, i as nat) == (ScanView {
                quote: cur_state,
                escaped: prev_escape,
                words: words_view(retvl@),
                buffer: buffer@,
            }),
        decreases n - i,
    {
        let c = s.get_char(i);
        let one = s.substring_char(i, i + 1);
        assert(one@ =~= seq![c]);
        let ghost words0 = words_view(retvl@);
        let ghost st0 = scan(s@, i as nat);
        if prev_escape {
            buffer.append(one);
            prev_escape = false;
        } else if c == '\\' {
            prev_escape = true;
        } else if (c == ' ' && cur_state == QuoteState::Plain) || (c == '"' && cur_state
            == QuoteState::DoubleQuote) || (c == '\'' && cur_state == QuoteState::SingleQuote)
            || (c == '`' && cur_state == QuoteState::Backtick) {
            cur_state = QuoteState::Plain;
            if buffer.unicode_len() > 0 {
                let ghost b = buffer@;
                retvl.push(buffer);
                assert(words_view(retvl@) =~= words0.push(b));
            }
            buffer = String::new();
        } else if c == '"' && cur_state == QuoteState::Plain {
            cur_state = QuoteState::DoubleQuote;
        } else if c == '\'' && cur_state == QuoteState::Plain {
            cur_state = QuoteState::SingleQuote;
        } else if c == '`' && cur_state == QuoteState::Plain {
            cur_state = QuoteState::Backtick;
        } else {
            buffer.append(one);
        }
        i += 1;
        proof {
            let st = scan_step(st0, c);
            assert(scan(s@, i as nat) == st);
            assert(st.buffer =~= buffer@);
            assert(st.words =~= words_view(retvl@));
        }
    }
    if buffer.unicode_len() > 0 || retvl.len() == 0 {
        let ghost words0 = words_view(retvl@);
        let ghost b = buffer@;
        retvl.push(buffer);
        assert(words_view(retvl@) =~= words0.push(b));
    }
    retvl
}

} // verus!
