//! Rendering of the HTML index listing of a directory.
//!
//! The document is a fixed preamble (doctype, title, stylesheet), an up-link
//! item present exactly when the listed directory is not the served root,
//! one list item per entry in listing order, and a closing tail. Each item
//! links to the entry: the href is the percent-encoded name and the label is
//! the HTML-escaped name, each with a trailing slash when the entry is a
//! directory. The href and the label are two independent encodings of the
//! same name.
use crate::entries::Entry;
use crate::entries::distinct_names;
use crate::entries::entries_view;
use crate::entries::lemma_sorted_unique;
use crate::entries::sorted_names;
use crate::escape::html_escape;
use crate::escape::html_escape_spec;
use crate::percent::pct_encode_chars;
use crate::percent::percent_encode;
use vstd::prelude::*;
use vstd::string::StringExecFns;
use vstd::utf8::encode_utf8;

verus! {

/// The fixed head of the document, through the opening of the list.
pub open spec fn doc_preamble() -> Seq<char> {
    "<!doctype html><html><head><meta charset='utf-8'><title>Index</title><style>body{font-family:system-ui,Arial,sans-serif} a{text-decoration:none}</style></head><body><h1>Index</h1><ul>"@
}

/// The up-link item, present exactly when the listing is not of the root.
pub open spec fn uplink_item() -> Seq<char> {
    "<li><a href=\"../\">../</a></li>"@
}

/// The fixed tail of the document.
pub open spec fn doc_epilogue() -> Seq<char> {
    "</ul></body></html>"@
}

/// The list item of one entry: the href is the percent-encoded name, the
/// label the HTML-escaped name, each with a trailing slash for a directory.
pub open spec fn item_html(name: Seq<char>, is_dir: bool) -> Seq<char> {
    let slash = if is_dir {
        "/"@
    } else {
        Seq::<char>::empty()
    };
    "<li><a href=\""@ + pct_encode_chars(encode_utf8(name)) + slash + "\">"@ + html_escape_spec(
        name,
    ) + slash + "</a></li>"@
}

/// The list items of a listing's entries, in the order given.
pub open spec fn items_html(entries: Seq<(Seq<char>, bool)>) -> Seq<char>
    decreases entries.len(),
{
    if entries.len() == 0 {
        Seq::empty()
    } else {
        item_html(entries[0].0, entries[0].1) + items_html(entries.drop_first())
    }
}

/// The complete index document of a listing.
pub open spec fn listing_html(entries: Seq<(Seq<char>, bool)>, is_root: bool) -> Seq<char> {
    doc_preamble() + (if is_root {
        Seq::<char>::empty()
    } else {
        uplink_item()
    }) + items_html(entries) + doc_epilogue()
}

proof fn lemma_items_snoc(s: Seq<(Seq<char>, bool)>, x: (Seq<char>, bool))
    ensures
        items_html(s.push(x)) == items_html(s) + item_html(x.0, x.1),
    decreases s.len(),
{
    if s.len() == 0 {
        assert(s.push(x)[0] == x);
        assert(s.push(x).drop_first() =~= Seq::<(Seq<char>, bool)>::empty());
        assert(items_html(s.push(x)) == item_html(x.0, x.1) + items_html(
            Seq::<(Seq<char>, bool)>::empty(),
        ));
        assert(item_html(x.0, x.1) + Seq::<char>::empty() =~= item_html(x.0, x.1));
        assert(items_html(s) + item_html(x.0, x.1) =~= item_html(x.0, x.1));
    } else {
        assert(s.push(x)[0] == s[0]);
        assert(s.push(x).drop_first() =~= s.drop_first().push(x));
        lemma_items_snoc(s.drop_first(), x);
        assert(items_html(s.push(x)) =~= items_html(s) + item_html(x.0, x.1));
    }
}

/// Renders the index document for the given entries, in the order given.
/// The up-link item is present if and only if the listing is not of the root.
pub fn render_listing(entries: &Vec<Entry>, is_root: bool) -> (r: String)
    ensures
        r@ == listing_html(entries_view(entries@), is_root),
{
    let ghost ev = entries_view(entries@);
    let ghost up = if is_root {
        Seq::<char>::empty()
    } else {
        uplink_item()
    };
    let mut out = String::new();
    out.append(
        "<!doctype html><html><head><meta charset='utf-8'><title>Index</title><style>body{font-family:system-ui,Arial,sans-serif} a{text-decoration:none}</style></head><body><h1>Index</h1><ul>",
    );
    if !is_root {
        out.append("<li><a href=\"../\">../</a></li>");
    }
    let n = entries.len();
    let mut i: usize = 0;
    proof {
        assert(ev.take(0) =~= Seq::<(Seq<char>, bool)>::empty());
        assert(out@ =~= doc_preamble() + up + items_html(ev.take(0)));
    }
    while i < n
        invariant
            n == entries@.len(),
            0 <= i <= n,
            ev == entries_view(entries@),
            up == if is_root {
                Seq::<char>::empty()
            } else {
                uplink_item()
            },
            out@ == doc_preamble() + up + items_html(ev.take(i as int)),
        decreases n - i,
    {
        let href = percent_encode(entries[i].name.as_str());
        let label = html_escape(entries[i].name.as_str());
        out.append("<li><a href=\"");
        out.append(href.as_str());
        if entries[i].is_dir {
            out.append("/");
        }
        out.append("\">");
        out.append(label.as_str());
        if entries[i].is_dir {
            out.append("/");
        }
        out.append("</a></li>");
        proof {
            assert(ev[i as int] == entries@[i as int]@);
            assert(ev.take(i + 1) =~= ev.take(i as int).push(ev[i as int]));
            lemma_items_snoc(ev.take(i as int), ev[i as int]);
            assert(out@ =~= doc_preamble() + up + items_html(ev.take(i + 1)));
        }
        i = i + 1;
    }
    out.append("</ul></body></html>");
    proof {
        assert(ev.take(n as int) =~= ev);
        assert(out@ =~= listing_html(ev, is_root));
    }
    out
}

/// Law: a directory's listing is determined by what the directory holds.
/// Any two listing orders of the same entries - with pairwise distinct
/// names, as the children of one directory always have - render the one
/// identical document.
pub proof fn lemma_listing_deterministic(
    a: Seq<(Seq<char>, bool)>,
    b: Seq<(Seq<char>, bool)>,
    is_root: bool,
)
    requires
        sorted_names(a),
        sorted_names(b),
        distinct_names(a),
        a.to_multiset() == b.to_multiset(),
    ensures
        listing_html(a, is_root) == listing_html(b, is_root),
{
    lemma_sorted_unique(a, b);
}

/// Law: the only difference the root makes to a listing is the up-link item.
/// The root's document has no up-link; a non-root document holds exactly one,
/// directly after the preamble; the rest is identical.
pub proof fn lemma_up_link(entries: Seq<(Seq<char>, bool)>)
    ensures
        listing_html(entries, true) == doc_preamble() + items_html(entries) + doc_epilogue(),
        listing_html(entries, false) == doc_preamble() + uplink_item() + items_html(entries)
            + doc_epilogue(),
        listing_html(entries, false) != listing_html(entries, true),
{
    assert(listing_html(entries, true) =~= doc_preamble() + items_html(entries) + doc_epilogue());
    assert(listing_html(entries, false) =~= doc_preamble() + uplink_item() + items_html(entries)
        + doc_epilogue());
    assert(listing_html(entries, false).len() != listing_html(entries, true).len()) by {
        reveal_strlit("<li><a href=\"../\">../</a></li>");
    }
}

} // verus!
