//! HTML escaping of the displayed label of a directory entry.
//!
//! The five HTML-significant characters ampersand, `<`, `>`, double quote and
//! single quote are replaced by their character entities; every other
//! character is kept. The escaped text therefore never holds a raw `<`, `>`,
//! quote or a stray ampersand, so it can stand inside an attribute value or
//! element text without changing the document's structure.
use vstd::prelude::*;

verus! {

/// Relies on `alloc::string::String::push`: it appends the given character
/// to the end of the string.
pub assume_specification[ String::push ](s: &mut String, ch: char)
    ensures
        final(s)@ == old(s)@ + seq![ch],
;

/// The escaped form of one character.
pub open spec fn esc_char(c: char) -> Seq<char> {
    if c == '&' {
        seq!['&', 'a', 'm', 'p', ';']
    } else if c == '<' {
        seq!['&', 'l', 't', ';']
    } else if c == '>' {
        seq!['&', 'g', 't', ';']
    } else if c == '"' {
        seq!['&', 'q', 'u', 'o', 't', ';']
    } else if c == '\'' {
        seq!['&', '#', '3', '9', ';']
    } else {
        seq![c]
    }
}

/// The escaped form of a text: each character replaced by its escaped form.
pub open spec fn html_escape_spec(s: Seq<char>) -> Seq<char>
    decreases s.len(),
{
    if s.len() == 0 {
        Seq::empty()
    } else {
        esc_char(s[0]) + html_escape_spec(s.drop_first())
    }
}

proof fn lemma_escape_snoc(s: Seq<char>, c: char)
    ensures
        html_escape_spec(s.push(c)) == html_escape_spec(s) + esc_char(c),
    decreases s.len(),
{
    if s.len() == 0 {
        assert(s.push(c)[0] == c);
        assert(s.push(c).drop_first() =~= Seq::<char>::empty());
        assert(html_escape_spec(s.push(c)) == esc_char(c) + html_escape_spec(
            Seq::<char>::empty(),
        ));
        assert(esc_char(c) + Seq::<char>::empty() =~= esc_char(c));
        assert(html_escape_spec(s) + esc_char(c) =~= esc_char(c));
    } else {
        assert(s.push(c).drop_first() =~= s.drop_first().push(c));
        lemma_escape_snoc(s.drop_first(), c);
        assert(html_escape_spec(s.push(c)) =~= html_escape_spec(s) + esc_char(c));
    }
}

/// Escapes the HTML-significant characters of a text: `&` becomes `&amp;`,
/// `<` becomes `&lt;`, `>` becomes `&gt;`, `"` becomes `&quot;` and `'`
/// becomes `&#39;`.
pub fn html_escape(s: &str) -> (out: String)
    ensures
        out@ == html_escape_spec(s@),
{
    let n = s.unicode_len();
    let mut out = String::new();
    let mut i: usize = 0;
    proof {
        assert(s@.take(0) =~= Seq::<char>::empty());
    }
    while i < n
        invariant
            n == s@.len(),
            0 <= i <= n,
            out@ == html_escape_spec(s@.take(i as int)),
        decreases n - i,
    {
        let c = s.get_char(i);
        if c == '&' {
            out.append("&amp;");
            proof {
                reveal_strlit("&amp;");
                assert("&amp;"@ =~= seq!['&', 'a', 'm', 'p', ';']);
            }
        } else if c == '<' {
            out.append("&lt;");
            proof {
                reveal_strlit("&lt;");
                assert("&lt;"@ =~= seq!['&', 'l', 't', ';']);
            }
        } else if c == '>' {
            out.append("&gt;");
            proof {
                reveal_strlit("&gt;");
                assert("&gt;"@ =~= seq!['&', 'g', 't', ';']);
            }
        } else if c == '"' {
            out.append("&quot;");
            proof {
                reveal_strlit("&quot;");
                assert("&quot;"@ =~= seq!['&', 'q', 'u', 'o', 't', ';']);
            }
        } else if c == '\'' {
            out.append("&#39;");
            proof {
                reveal_strlit("&#39;");
                assert("&#39;"@ =~= seq!['&', '#', '3', '9', ';']);
            }
        } else {
            out.push(c);
        }
        proof {
            assert(s@.take(i + 1) =~= s@.take(i as int).push(s@[i as int]));
            lemma_escape_snoc(s@.take(i as int), s@[i as int]);
        }
        i = i + 1;
    }
    proof {
        assert(s@.take(n as int) =~= s@);
    }
    out
}

/// Reading escaped text back: each leading entity becomes its character,
/// any other character stands for itself.
pub open spec fn html_unescape(s: Seq<char>) -> Seq<char>
    decreases s.len(),
{
    if s.len() == 0 {
        Seq::empty()
    } else if s.len() >= 5 && s.subrange(0, 5) == seq!['&', 'a', 'm', 'p', ';'] {
        seq!['&'] + html_unescape(s.skip(5))
    } else if s.len() >= 4 && s.subrange(0, 4) == seq!['&', 'l', 't', ';'] {
        seq!['<'] + html_unescape(s.skip(4))
    } else if s.len() >= 4 && s.subrange(0, 4) == seq!['&', 'g', 't', ';'] {
        seq!['>'] + html_unescape(s.skip(4))
    } else if s.len() >= 6 && s.subrange(0, 6) == seq!['&', 'q', 'u', 'o', 't', ';'] {
        seq!['"'] + html_unescape(s.skip(6))
    } else if s.len() >= 5 && s.subrange(0, 5) == seq!['&', '#', '3', '9', ';'] {
        seq!['\''] + html_unescape(s.skip(5))
    } else {
        seq![s[0]] + html_unescape(s.drop_first())
    }
}

/// Law: escaping loses nothing - reading the escaped form of any text back
/// gives the text itself, so the escaped form determines the label.
pub proof fn lemma_escape_round_trip(s: Seq<char>)
    ensures
        html_unescape(html_escape_spec(s)) == s,
    decreases s.len(),
{
    if s.len() == 0 {
        assert(html_escape_spec(s) =~= Seq::<char>::empty());
        assert(html_unescape(html_escape_spec(s)) =~= s);
    } else {
        let c = s[0];
        let rest = s.drop_first();
        let e = html_escape_spec(s);
        let tail = html_escape_spec(rest);
        lemma_escape_round_trip(rest);
        assert(e == esc_char(c) + tail);
        if c == '&' {
            assert(e.subrange(0, 5) =~= seq!['&', 'a', 'm', 'p', ';']);
            assert(e.skip(5) =~= tail);
            assert(seq!['&'] + rest =~= s);
        } else if c == '<' {
            assert(e.subrange(0, 4) =~= seq!['&', 'l', 't', ';']);
            if e.len() >= 5 {
                assert(e.subrange(0, 5)[1] == 'l');
            }
            assert(e.skip(4) =~= tail);
            assert(seq!['<'] + rest =~= s);
        } else if c == '>' {
            assert(e.subrange(0, 4) =~= seq!['&', 'g', 't', ';']);
            if e.len() >= 5 {
                assert(e.subrange(0, 5)[1] == 'g');
            }
            assert(e.skip(4) =~= tail);
            assert(seq!['>'] + rest =~= s);
        } else if c == '"' {
            assert(e.subrange(0, 6) =~= seq!['&', 'q', 'u', 'o', 't', ';']);
            assert(e.subrange(0, 5)[1] == 'q');
            assert(e.subrange(0, 4)[1] == 'q');
            assert(seq!['"'] + rest =~= s);
            assert(e.skip(6) =~= tail);
        } else if c == '\'' {
            assert(e.subrange(0, 5) =~= seq!['&', '#', '3', '9', ';']);
            assert(e.subrange(0, 4)[1] == '#');
            assert(e.skip(5) =~= tail);
            assert(seq!['\''] + rest =~= s);
        } else {
            assert(e[0] == c);
            assert(c != '&');
            if e.len() >= 5 {
                assert(e.subrange(0, 5)[0] == c);
            }
            if e.len() >= 4 {
                assert(e.subrange(0, 4)[0] == c);
            }
            if e.len() >= 6 {
                assert(e.subrange(0, 6)[0] == c);
            }
            assert(e.drop_first() =~= tail);
            assert(seq![c] + rest =~= s);
        }
    }
}

/// Law: the escaped form of any text holds no raw `<`, `>`, double quote or
/// single quote at any position, whatever the text.
pub proof fn lemma_escape_no_raw(s: Seq<char>)
    ensures
        forall|i: int|
            0 <= i < html_escape_spec(s).len() ==> #[trigger] html_escape_spec(s)[i] != '<'
                && html_escape_spec(s)[i] != '>' && html_escape_spec(s)[i] != '"'
                && html_escape_spec(s)[i] != '\'',
    decreases s.len(),
{
    if s.len() > 0 {
        lemma_escape_no_raw(s.drop_first());
        let e = html_escape_spec(s);
        let eb = esc_char(s[0]);
        assert forall|i: int| 0 <= i < e.len() implies #[trigger] e[i] != '<' && e[i] != '>' && e[i]
            != '"' && e[i] != '\'' by {
            assert(e == eb + html_escape_spec(s.drop_first()));
            if i < eb.len() {
                assert(e[i] == eb[i]);
            } else {
                assert(e[i] == html_escape_spec(s.drop_first())[i - eb.len()]);
            }
        }
    }
}

} // verus!
