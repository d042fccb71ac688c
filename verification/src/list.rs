//! Listing: which entries a scan returns, and the exact text of the two
//! output shapes. A listing keeps the entries whose key starts with the
//! requested prefix and that are live at the moment of the call, in store
//! order; it then drops `skip` of them and returns at most `limit`.

use vstd::prelude::*;

use crate::json::{json_of, json_str, push_json, push_json_str};
use crate::store::{live, Entry, Store};
use crate::strutil::{chars_string, str_chars, str_starts_with};

verus! {

/// The output shapes of a listing.
pub enum Format {
    Text,
    Json,
}

/// Options of a listing: the key prefix filter, how many matches to drop
/// from the front, how many to return at most, whether values accompany
/// keys, and the output shape.
pub struct ListOptions {
    pub prefix: String,
    pub skip: usize,
    pub limit: usize,
    pub values: bool,
    pub format: Format,
}

/// Whether a listing with this prefix, at second `now`, keeps the pair:
/// the key starts with the prefix and the entry is live.
pub open spec fn keeps(p: (String, Entry), prefix: Seq<char>, now: u64) -> bool {
    prefix.len() <= p.0@.len() && p.0@.subrange(0, prefix.len() as int) == prefix && live(p.1, now)
}

/// The pairs a listing keeps, in store order.
pub open spec fn matching(s: Seq<(String, Entry)>, prefix: Seq<char>, now: u64) -> Seq<
    (String, Entry),
>
    decreases s.len(),
{
    if s.len() == 0 {
        Seq::empty()
    } else if keeps(s.last(), prefix, now) {
        matching(s.drop_last(), prefix, now).push(s.last())
    } else {
        matching(s.drop_last(), prefix, now)
    }
}

/// A window of a sequence: `skip` items dropped from the front, then at
/// most `limit` of the remainder.
pub open spec fn window<T>(s: Seq<T>, skip: int, limit: int) -> Seq<T> {
    if skip >= s.len() {
        Seq::empty()
    } else if skip + limit >= s.len() {
        s.subrange(skip, s.len() as int)
    } else {
        s.subrange(skip, skip + limit)
    }
}

/// The pairs a listing returns.
pub open spec fn selected(
    s: Seq<(String, Entry)>,
    prefix: Seq<char>,
    skip: int,
    limit: int,
    now: u64,
) -> Seq<(String, Entry)> {
    window(matching(s, prefix, now), skip, limit)
}

/// One line of the text shape: the key, or `key=value` with the value as
/// JSON.
pub open spec fn text_line(p: (String, Entry), values: bool) -> Seq<char> {
    if values {
        p.0@ + seq!['='] + json_of(p.1.value)
    } else {
        p.0@
    }
}

/// The text shape: lines joined by newlines.
pub open spec fn render_text(items: Seq<(String, Entry)>, values: bool) -> Seq<char>
    decreases items.len(),
{
    if items.len() == 0 {
        Seq::empty()
    } else if items.len() == 1 {
        text_line(items[0], values)
    } else {
        render_text(items.drop_last(), values) + seq!['\n'] + text_line(items.last(), values)
    }
}

/// One member of the JSON shape: the quoted key, with `:value` when values
/// are included.
pub open spec fn json_item(p: (String, Entry), values: bool) -> Seq<char> {
    if values {
        json_str(p.0@) + seq![':'] + json_of(p.1.value)
    } else {
        json_str(p.0@)
    }
}

/// The comma-separated members of the JSON shape.
pub open spec fn render_json_items(items: Seq<(String, Entry)>, values: bool) -> Seq<char>
    decreases items.len(),
{
    if items.len() == 0 {
        Seq::empty()
    } else if items.len() == 1 {
        json_item(items[0], values)
    } else {
        render_json_items(items.drop_last(), values) + seq![','] + json_item(items.last(), values)
    }
}

/// The JSON shape: an array of keys, or an object of key/value members.
pub open spec fn render_json(items: Seq<(String, Entry)>, values: bool) -> Seq<char> {
    if values {
        seq!['{'] + render_json_items(items, values) + seq!['}']
    } else {
        seq!['['] + render_json_items(items, values) + seq![']']
    }
}

/// The text a listing produces.
pub open spec fn render(items: Seq<(String, Entry)>, values: bool, format: Format) -> Seq<char> {
    match format {
        Format::Text => render_text(items, values),
        Format::Json => render_json(items, values),
    }
}

proof fn lemma_matching_keeps(s: Seq<(String, Entry)>, prefix: Seq<char>, now: u64)
    ensures
        forall|j: int|
            0 <= j < matching(s, prefix, now).len() ==> keeps(
                #[trigger] matching(s, prefix, now)[j],
                prefix,
                now,
            ),
    decreases s.len(),
{
    if s.len() > 0 {
        lemma_matching_keeps(s.drop_last(), prefix, now);
        let m0 = matching(s.drop_last(), prefix, now);
        let m = matching(s, prefix, now);
        assert forall|j: int| 0 <= j < m.len() implies keeps(m[j], prefix, now) by {
            if keeps(s.last(), prefix, now) {
                assert(m == m0.push(s.last()));
                if j < m0.len() {
                    assert(keeps(m0[j], prefix, now));
                    assert(m[j] == m0[j]);
                } else {
                    assert(m[j] == s.last());
                }
            } else {
                assert(m == m0);
                assert(keeps(m0[j], prefix, now));
            }
        }
    }
}

/// Law: every pair a listing returns is live at the moment of the listing
/// and its key starts with the requested prefix — a listing never surfaces
/// an expired entry.
pub proof fn lemma_selected_live(
    s: Seq<(String, Entry)>,
    prefix: Seq<char>,
    skip: int,
    limit: int,
    now: u64,
)
    requires
        skip >= 0,
        limit >= 0,
    ensures
        forall|j: int|
            0 <= j < selected(s, prefix, skip, limit, now).len() ==> keeps(
                #[trigger] selected(s, prefix, skip, limit, now)[j],
                prefix,
                now,
            ),
{
    lemma_matching_keeps(s, prefix, now);
    let m = matching(s, prefix, now);
    let sel = selected(s, prefix, skip, limit, now);
    assert forall|j: int| 0 <= j < sel.len() implies keeps(sel[j], prefix, now) by {
        assert(sel[j] == m[skip + j]);
        assert(keeps(m[skip + j], prefix, now));
    }
}

fn push_chars(cs: &Vec<char>, out: &mut Vec<char>)
    ensures
        final(out)@ == old(out)@ + cs@,
{
    let mut j: usize = 0;
    while j < cs.len()
        invariant
            j <= cs.len(),
            out@ == old(out)@ + cs@.take(j as int),
        decreases cs.len() - j,
    {
        out.push(cs[j]);
        proof {
            assert(out@ =~= old(out)@ + cs@.take(j + 1));
        }
        j += 1;
    }
    proof {
        assert(cs@.take(cs@.len() as int) =~= cs@);
    }
}

impl Store {
    fn select_idx(&self, prefix: &String, now: u64) -> (r: Vec<usize>)
        ensures
            r@.len() == matching(self.entries_seq(), prefix@, now).len(),
            forall|j: int|
                0 <= j < r@.len() ==> (#[trigger] r@[j]) < self.entries_seq().len()
                    && self.entries_seq()[r@[j] as int] == matching(
                    self.entries_seq(),
                    prefix@,
                    now,
                )[j],
    {
        let ghost s = self.entries_seq();
        let mut r: Vec<usize> = Vec::new();
        let mut i: usize = 0;
        let n = self.len();
        while i < n
            invariant
                i <= n,
                n == s.len(),
                s == self.entries_seq(),
                r@.len() == matching(s.take(i as int), prefix@, now).len(),
                forall|j: int|
                    0 <= j < r@.len() ==> (#[trigger] r@[j]) < i && s[r@[j] as int] == matching(
                        s.take(i as int),
                        prefix@,
                        now,
                    )[j],
            decreases n - i,
        {
            let p = self.nth(i);
            let pk = crate::store::is_live(&p.1, now);
            let starts = str_starts_with(p.0.as_str(), prefix.as_str());
            proof {
                assert(s.take(i + 1).drop_last() =~= s.take(i as int));
                assert(s.take(i + 1).last() == s[i as int]);
            }
            if starts && pk {
                assert(keeps(s[i as int], prefix@, now));
                r.push(i);
            } else {
                assert(!keeps(s[i as int], prefix@, now));
            }
            i += 1;
        }
        proof {
            assert(s.take(n as int) =~= s);
        }
        r
    }

    /// Lists the store at second `now`: the entries whose key starts with
    /// the prefix and that are still live, in store order, with `skip` of
    /// them dropped and at most `limit` returned, rendered in the requested
    /// shape.
    pub fn list(&self, opts: &ListOptions, now: u64) -> (r: String)
        ensures
            r@ == render(
                selected(
                    self.entries_seq(),
                    opts.prefix@,
                    opts.skip as int,
                    opts.limit as int,
                    now,
                ),
                opts.values,
                opts.format,
            ),
    {
        let idxs = self.select_idx(&opts.prefix, now);
        let ghost m = matching(self.entries_seq(), opts.prefix@, now);
        let lo = if opts.skip < idxs.len() {
            opts.skip
        } else {
            idxs.len()
        };
        let hi = match opts.skip.checked_add(opts.limit) {
            Some(h) => if h < idxs.len() {
                h
            } else {
                idxs.len()
            },
            None => idxs.len(),
        };
        let ghost w = m.subrange(lo as int, hi as int);
        proof {
            assert(window(m, opts.skip as int, opts.limit as int) =~= w);
        }
        let mut out: Vec<char> = Vec::new();
        let count = hi - lo;
        let mut t: usize = 0;
        match opts.format {
            Format::Json => {
                if opts.values {
                    out.push('{');
                } else {
                    out.push('[');
                }
                let ghost open = out@;
                while t < count
                    invariant
                        t <= count,
                        lo + count == hi,
                        hi <= idxs@.len(),
                        out@ == open + render_json_items(w.take(t as int), opts.values),
                        open.len() == 1,
                        w == m.subrange(lo as int, hi as int),
                        m == matching(self.entries_seq(), opts.prefix@, now),
                        idxs@.len() == m.len(),
                        forall|j: int|
                            0 <= j < idxs@.len() ==> (#[trigger] idxs@[j])
                                < self.entries_seq().len() && self.entries_seq()[idxs@[j] as int]
                                == m[j],
                    decreases count - t,
                {
                    if t > 0 {
                        out.push(',');
                    }
                    let ix = idxs[lo + t];
                    let p = self.nth(ix);
                    proof {
                        assert(w[t as int] == m[lo + t]);
                        assert(*p == w[t as int]);
                    }
                    push_json_str(p.0.as_str(), &mut out);
                    if opts.values {
                        out.push(':');
                        push_json(&p.1.value, &mut out);
                    }
                    proof {
                        assert(w.take(t + 1).drop_last() =~= w.take(t as int));
                        assert(w.take(t + 1).last() == w[t as int]);
                        assert(out@ =~= open + render_json_items(w.take(t + 1), opts.values));
                    }
                    t += 1;
                }
                if opts.values {
                    out.push('}');
                } else {
                    out.push(']');
                }
                proof {
                    assert(w.take(count as int) =~= w);
                    assert(out@ =~= render_json(w, opts.values));
                }
            },
            Format::Text => {
                while t < count
                    invariant
                        t <= count,
                        lo + count == hi,
                        hi <= idxs@.len(),
                        out@ == render_text(w.take(t as int), opts.values),
                        w == m.subrange(lo as int, hi as int),
                        m == matching(self.entries_seq(), opts.prefix@, now),
                        idxs@.len() == m.len(),
                        forall|j: int|
                            0 <= j < idxs@.len() ==> (#[trigger] idxs@[j])
                                < self.entries_seq().len() && self.entries_seq()[idxs@[j] as int]
                                == m[j],
                    decreases count - t,
                {
                    if t > 0 {
                        out.push('\n');
                    }
                    let ix = idxs[lo + t];
                    let p = self.nth(ix);
                    proof {
                        assert(w[t as int] == m[lo + t]);
                        assert(*p == w[t as int]);
                    }
                    let kc = str_chars(p.0.as_str());
                    push_chars(&kc, &mut out);
                    if opts.values {
                        out.push('=');
                        push_json(&p.1.value, &mut out);
                    }
                    proof {
                        assert(w.take(t + 1).drop_last() =~= w.take(t as int));
                        assert(w.take(t + 1).last() == w[t as int]);
                        assert(out@ =~= render_text(w.take(t + 1), opts.values));
                    }
                    t += 1;
                }
                proof {
                    assert(w.take(count as int) =~= w);
                }
            },
        }
        chars_string(&out)
    }
}

} // verus!
