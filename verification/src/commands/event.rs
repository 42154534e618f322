//! `event`: setting the `Event` tag of every board of a file.
use vstd::prelude::*;
use crate::commands::rotate_deals::{parse_tag_line_chars, tag_line_spec};
use crate::commands::rotated_pbn::tag_text;
use crate::text::{
    chars_eq, chars_of, lemma_lines_have_no_break, lemma_lines_of_lines_text, lines, lines_of,
    lines_text, plain_line, push_all, push_str, string_of, trim, trimmed, views,
};

verus! {

/// A line with the event set: an `[Event "..."]` tag line becomes
/// `[Event "<name>"]`; every other line is kept as it is.
pub open spec fn event_line(line: Seq<char>, name: Seq<char>) -> Seq<char> {
    match tag_line_spec(trim(line)) {
        Some(t) => if t.0 == "Event"@ {
            tag_text("Event"@, name)
        } else {
            line
        },
        None => line,
    }
}

/// The lines with the event set.
pub open spec fn event_lines(ls: Seq<Seq<char>>, name: Seq<char>) -> Seq<Seq<char>> {
    Seq::new(ls.len(), |i: int| event_line(ls[i], name))
}

/// The lines with the event set, each followed by a newline.
pub open spec fn events_text(ls: Seq<Seq<char>>, name: Seq<char>) -> Seq<char> {
    lines_text(event_lines(ls, name))
}

/// Sets the `Event` tag of every board to `name`: each `[Event "..."]` line
/// is rewritten, every other line is kept, and each line ends in a newline.
pub fn set_event(content: &str, name: &str) -> (r: String)
    ensures
        r@ == events_text(lines(content@), name@),
{
    let text = chars_of(content);
    let ls = lines_of(&text);
    let event = chars_of("Event");
    let mut tag: Vec<char> = vec!['[', 'E', 'v', 'e', 'n', 't', ' ', '"'];
    proof {
        reveal_strlit("Event");
    }
    push_str(&mut tag, name);
    tag.push('"');
    tag.push(']');
    assert(tag@ =~= tag_text("Event"@, name@));
    let mut out: Vec<char> = Vec::new();
    let ghost all = views(ls@);
    let mut i: usize = 0;
    assert(event_lines(all.take(0), name@) =~= Seq::<Seq<char>>::empty());
    while i < ls.len()
        invariant
            i <= ls.len(),
            all == views(ls@),
            all == lines(content@),
            event@ == "Event"@,
            tag@ == tag_text("Event"@, name@),
            out@ == lines_text(event_lines(all.take(i as int), name@)),
        decreases ls.len() - i,
    {
        let ghost before = event_lines(all.take(i as int), name@);
        assert(all[i as int] == ls@[i as int]@);
        assert(event_lines(all.take(i + 1), name@) =~= before.push(event_line(all[i as int], name@)));
        assert(before.push(event_line(all[i as int], name@)).drop_last() =~= before);
        let t = trimmed(&ls[i]);
        let is_event = match parse_tag_line_chars(&t) {
            Some((n, _)) => chars_eq(n.as_slice(), event.as_slice()),
            None => false,
        };
        if is_event {
            push_all(&mut out, &tag);
        } else {
            push_all(&mut out, &ls[i]);
        }
        out.push('\n');
        i = i + 1;
    }
    assert(all.take(ls.len() as int) =~= all);
    string_of(&out)
}

proof fn lemma_event_tag_reads_back(name: Seq<char>)
    ensures
        trim(tag_text("Event"@, name)) == tag_text("Event"@, name),
        tag_line_spec(tag_text("Event"@, name)) == Some(("Event"@, name)),
{
    reveal_strlit("Event");
    assert(!"Event"@.contains(' ')) by {
        if "Event"@.contains(' ') {
            let k = choose|k: int| 0 <= k < "Event"@.len() && "Event"@[k] == ' ';
        }
    }
    crate::commands::rotated_pbn::lemma_tag_line_reads_back("Event"@, name);
}

proof fn lemma_event_line_twice(l: Seq<char>, a: Seq<char>, b: Seq<char>)
    ensures
        event_line(event_line(l, a), b) == event_line(l, b),
{
    match tag_line_spec(trim(l)) {
        Some(t) => if t.0 == "Event"@ {
            lemma_event_tag_reads_back(a);
        },
        None => {},
    }
}

/// Setting the event twice is setting it once to the second name, as long
/// as no line of the file ends in a carriage return and the first name
/// holds no line break.
pub proof fn lemma_set_event_twice(content: Seq<char>, a: Seq<char>, b: Seq<char>)
    requires
        forall|i: int|
            0 <= i < lines(content).len() ==> !((#[trigger] lines(content)[i]).len() > 0 && lines(content)[i].last() == '\r'),
        !a.contains('\n'),
    ensures
        events_text(lines(events_text(lines(content), a)), b) == events_text(lines(content), b),
{
    let ls = lines(content);
    let m = event_lines(ls, a);
    lemma_lines_have_no_break(content, 0);
    assert forall|i: int| 0 <= i < m.len() implies plain_line(#[trigger] m[i]) by {
        match tag_line_spec(trim(ls[i])) {
            Some(t) => if t.0 == "Event"@ {
                let tt = tag_text("Event"@, a);
                assert(m[i] == tt);
                assert(!tt.contains('\n')) by {
                    reveal_strlit("Event");
                    if tt.contains('\n') {
                        let k = choose|k: int| 0 <= k < tt.len() && tt[k] == '\n';
                        if 8 <= k < 8 + a.len() {
                            assert(tt[k] == a[k - 8]);
                        }
                    }
                }
                assert(tt.last() == ']');
            } else {
                assert(m[i] == ls[i]);
            },
            None => {
                assert(m[i] == ls[i]);
            },
        }
    }
    lemma_lines_of_lines_text(m);
    assert forall|i: int| 0 <= i < ls.len() implies #[trigger] event_lines(m, b)[i] == event_lines(ls, b)[i] by {
        lemma_event_line_twice(ls[i], a, b);
    }
    assert(event_lines(m, b) =~= event_lines(ls, b));
}

/// The options of `event`.
pub struct Args {
    /// Input PBN file.
    pub input: String,
    /// Event name to set.
    pub event: String,
    /// Output PBN file (defaults to `<input>-Updated.pbn`).
    pub output: Option<String>,
    /// Update the input file itself.
    pub in_place: bool,
}

} // verus!
