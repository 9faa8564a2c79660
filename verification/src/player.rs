//! A performer: one character's dialogue, indexed by declared line number.
//! Parsing collects `(line number, text)` entries from the raw lines of a
//! dialogue file, dropping malformed ones, and stable-sorts them by line
//! number so that out-of-order authoring is tolerated while equal numbers
//! keep their file order.

use vstd::prelude::*;

use crate::declarations::{Event, EventV, Warning, WarningV};
use crate::sorting::{
    lemma_sorted_insert_at, lemma_sorted_insert_sorted, lemma_stable_sorted_sorted,
    sorted_by_key, sorted_insert, stable_sorted,
};
use crate::text::{
    digits_value, first_space, first_space_index, is_line_number_token, number_body,
    parse_line_number, substring, trim_spec, trim_str,
};

verus! {

/// The dialogue of one performer: `(line number, text)` pairs.
pub type PlayLines = Vec<(usize, String)>;

/// A performer: a character's name, its dialogue lines sorted by line
/// number, and a cursor over the lines not yet delivered.
pub struct Player {
    name: String,
    lines: PlayLines,
    index: usize,
}

/// Spec-level view of a [`Player`].
pub struct PlayerV {
    pub name: Seq<char>,
    pub lines: Seq<(usize, Seq<char>)>,
    pub index: int,
}

impl View for Player {
    type V = PlayerV;

    closed spec fn view(&self) -> PlayerV {
        PlayerV { name: self.name@, lines: self.lines.deep_view(), index: self.index as int }
    }
}

impl DeepView for Player {
    type V = PlayerV;

    open spec fn deep_view(&self) -> PlayerV {
        self.view()
    }
}

/// The merge key of a dialogue entry: its declared line number.
pub open spec fn line_number_key() -> spec_fn((usize, Seq<char>)) -> int {
    |e: (usize, Seq<char>)| e.0 as int
}

/// A performer is well formed when its cursor is within bounds and its
/// lines are sorted by line number.
pub open spec fn player_wf(p: PlayerV) -> bool {
    &&& 0 <= p.index <= p.lines.len()
    &&& sorted_by_key(p.lines, line_number_key())
}

/// The dialogue entry a raw line denotes: after trimming, the text up to
/// the first whitespace must be a well-formed line number; the entry's
/// text is the trimmed remainder. Blank lines, lines without whitespace
/// and lines with a malformed number yield no entry.
pub open spec fn dialogue_entry_of(line: Seq<char>) -> Option<(usize, Seq<char>)> {
    let t = trim_spec(line);
    let j = first_space_index(t);
    if t.len() == 0 || j == t.len() {
        None
    } else {
        let head = t.take(j);
        if is_line_number_token(head) {
            Some((digits_value(number_body(head)) as usize, trim_spec(t.skip(j + 1))))
        } else {
            None
        }
    }
}

/// The advisory warning a raw dialogue line provokes: a malformed line
/// number token is reported; everything else is silent.
pub open spec fn dialogue_warning_of(line: Seq<char>) -> Option<WarningV> {
    let t = trim_spec(line);
    let j = first_space_index(t);
    if t.len() == 0 || j == t.len() {
        None
    } else {
        let head = t.take(j);
        if is_line_number_token(head) {
            None
        } else {
            Some(WarningV::InvalidLineNumber(head))
        }
    }
}

/// The dialogue entries a sequence of raw lines yields, in file order.
pub open spec fn dialogue_entries_of(lines: Seq<Seq<char>>) -> Seq<(usize, Seq<char>)>
    decreases lines.len(),
{
    if lines.len() == 0 {
        Seq::empty()
    } else {
        let pre = dialogue_entries_of(lines.drop_last());
        match dialogue_entry_of(lines.last()) {
            Some(e) => pre.push(e),
            None => pre,
        }
    }
}

/// The advisory warnings a sequence of raw dialogue lines provokes.
pub open spec fn dialogue_warnings_of(lines: Seq<Seq<char>>) -> Seq<WarningV>
    decreases lines.len(),
{
    if lines.len() == 0 {
        Seq::empty()
    } else {
        let pre = dialogue_warnings_of(lines.drop_last());
        match dialogue_warning_of(lines.last()) {
            Some(w) => pre.push(w),
            None => pre,
        }
    }
}

/// Warnings are emitted only in diagnostic mode.
pub open spec fn when_whinge(whinge: bool, w: Seq<WarningV>) -> Seq<WarningV> {
    if whinge {
        w
    } else {
        Seq::empty()
    }
}

/// The performer that a name and the raw lines of its dialogue file
/// assemble to: the well-formed entries, stable-sorted by line number,
/// with the cursor at the start.
pub open spec fn prepared_player(name: Seq<char>, lines: Seq<Seq<char>>) -> PlayerV {
    PlayerV {
        name: name,
        lines: stable_sorted(dialogue_entries_of(lines), line_number_key()),
        index: 0,
    }
}

/// Stable-sorts dialogue entries by their line number.
fn sort_lines_by_number(v: &mut Vec<(usize, String)>)
    ensures
        final(v).deep_view() == stable_sorted(old(v).deep_view(), line_number_key()),
{
    let ghost orig = old(v).deep_view();
    let ghost key = line_number_key();
    let mut i: usize = 0;
    proof {
        assert(v.deep_view().take(0) =~= stable_sorted(orig.take(0), key));
        assert(v.deep_view().skip(0) =~= orig.skip(0));
    }
    while i < v.len()
        invariant
            i <= v@.len(),
            v@.len() == orig.len(),
            key == line_number_key(),
            v.deep_view().take(i as int) == stable_sorted(orig.take(i as int), key),
            v.deep_view().skip(i as int) == orig.skip(i as int),
            sorted_by_key(v.deep_view().take(i as int), key),
        decreases v@.len() - i,
    {
        let ghost pre = v.deep_view();
        let ghost sorted_prefix = v.deep_view().take(i as int);
        let ghost tail = pre.skip(i as int + 1);
        let x = v.remove(i);
        let ghost xdv = (x.0, x.1@);
        proof {
            assert(v.deep_view() =~= sorted_prefix + tail);
            assert(pre.skip(i as int)[0] == orig.skip(i as int)[0]);
            assert(xdv == orig[i as int]);
        }
        let mut j: usize = i;
        while j > 0 && v[j - 1].0 > x.0
            invariant
                j <= i,
                i <= v@.len(),
                key == line_number_key(),
                v.deep_view() == sorted_prefix + tail,
                sorted_prefix.len() == i,
                xdv == (x.0, x.1@),
                forall|m: int| j <= m < i ==> key(#[trigger] sorted_prefix[m]) > key(xdv),
            decreases j,
        {
            proof {
                assert(v.deep_view()[j - 1] == sorted_prefix[j - 1]);
            }
            j = j - 1;
        }
        proof {
            assert(j > 0 ==> v.deep_view()[j - 1] == sorted_prefix[j - 1]);
            lemma_sorted_insert_at(sorted_prefix, xdv, key, j as int);
            lemma_sorted_insert_sorted(sorted_prefix, xdv, key);
        }
        v.insert(j, x);
        proof {
            assert(v.deep_view() =~= (sorted_prefix + tail).insert(j as int, xdv));
            assert((sorted_prefix + tail).insert(j as int, xdv) =~= sorted_prefix.insert(
                j as int,
                xdv,
            ) + tail);
            assert(v.deep_view().take(i as int + 1) =~= sorted_prefix.insert(
                j as int,
                xdv,
            ));
            assert(v.deep_view().take(i as int + 1) == sorted_insert(
                sorted_prefix,
                xdv,
                key,
            ));
            assert(orig.take(i as int + 1).drop_last() =~= orig.take(i as int));
            assert(orig.take(i as int + 1).last() == orig[i as int]);
            assert(v.deep_view().take(i as int + 1) == stable_sorted(
                orig.take(i as int + 1),
                key,
            ));
            assert forall|m: int| 0 <= m < tail.len() implies tail[m] == orig.skip(
                i as int + 1,
            )[m] by {
                assert(pre.skip(i as int)[m + 1] == orig.skip(i as int)[m + 1]);
            }
            assert(tail =~= orig.skip(i as int + 1));
            assert(v.deep_view().skip(i as int + 1) =~= tail);
        }
        i = i + 1;
    }
    proof {
        assert(orig.take(orig.len() as int) =~= orig);
        assert(v.deep_view().take(orig.len() as int) =~= v.deep_view());
    }
}

impl Player {
    /// Creates a performer with the given character name and no lines.
    pub fn new(name: &String) -> (p: Player)
        ensures
            p@.name == name@,
            p@.lines.len() == 0,
            p@.index == 0,
    {
        let p = Player { name: name.clone(), lines: Vec::new(), index: 0 };
        proof {
            assert(p@.lines =~= Seq::<(usize, Seq<char>)>::empty());
        }
        p
    }

    /// Parses one raw dialogue line into the line store, warning about a
    /// malformed line number in diagnostic mode.
    fn add_script_line(&mut self, line: &String, whinge: bool, warnings: &mut Vec<Warning>)
        ensures
            final(self)@.name == old(self)@.name,
            final(self)@.index == old(self)@.index,
            final(self)@.lines == match dialogue_entry_of(line@) {
                Some(e) => old(self)@.lines.push(e),
                None => old(self)@.lines,
            },
            final(warnings).deep_view() == match dialogue_warning_of(line@) {
                Some(w) => if whinge {
                    old(warnings).deep_view().push(w)
                } else {
                    old(warnings).deep_view()
                },
                None => old(warnings).deep_view(),
            },
    {
        let t = trim_str(line.as_str());
        let n = t.as_str().unicode_len();
        let j = first_space(t.as_str());
        if n == 0 || j == n {
            return ;
        }
        let head = substring(t.as_str(), 0, j);
        let rest = substring(t.as_str(), j + 1, n);
        proof {
            assert(head@ =~= trim_spec(line@).take(j as int));
            assert(rest@ =~= trim_spec(line@).skip(j as int + 1));
        }
        match parse_line_number(head.as_str()) {
            Some(number) => {
                let text = trim_str(rest.as_str());
                let ghost pre = self.lines.deep_view();
                self.lines.push((number, text));
                proof {
                    assert(self.lines.deep_view() =~= pre.push((number, text@)));
                }
            },
            None => {
                if whinge {
                    let ghost pre = warnings.deep_view();
                    warnings.push(Warning::InvalidLineNumber(head));
                    proof {
                        assert(warnings.deep_view() =~= pre.push(
                            WarningV::InvalidLineNumber(trim_spec(line@).take(j as int)),
                        ));
                    }
                }
            },
        }
    }

    /// Loads the performer's part from the raw lines of its dialogue
    /// file: parses each line and stable-sorts the entries by line
    /// number. In diagnostic mode, each malformed line number is reported.
    pub fn prepare(&mut self, part_lines: &Vec<String>, whinge: bool, warnings: &mut Vec<
        Warning,
    >)
        requires
            old(self)@.lines.len() == 0,
            old(self)@.index == 0,
        ensures
            final(self)@ == prepared_player(old(self)@.name, part_lines.deep_view()),
            player_wf(final(self)@),
            final(warnings).deep_view() == old(warnings).deep_view() + when_whinge(
                whinge,
                dialogue_warnings_of(part_lines.deep_view()),
            ),
    {
        let ghost pldv = part_lines.deep_view();
        let ghost w0 = warnings.deep_view();
        let ghost name0 = self@.name;
        let mut li: usize = 0;
        proof {
            assert(self@.lines =~= dialogue_entries_of(pldv.take(0)));
            assert(w0 + when_whinge(whinge, dialogue_warnings_of(pldv.take(0))) =~= w0);
        }
        while li < part_lines.len()
            invariant
                li <= part_lines@.len(),
                pldv == part_lines.deep_view(),
                self@.name == name0,
                self@.index == 0,
                self@.lines == dialogue_entries_of(pldv.take(li as int)),
                warnings.deep_view() == w0 + when_whinge(
                    whinge,
                    dialogue_warnings_of(pldv.take(li as int)),
                ),
            decreases part_lines@.len() - li,
        {
            let line = &part_lines[li];
            proof {
                assert(pldv.take(li as int + 1).drop_last() =~= pldv.take(li as int));
                assert(pldv.take(li as int + 1).last() == line@);
            }
            let ghost wpre = warnings.deep_view();
            self.add_script_line(line, whinge, warnings);
            proof {
                if whinge {
                    match dialogue_warning_of(line@) {
                        Some(w) => {
                            assert(warnings.deep_view() =~= w0 + when_whinge(
                                whinge,
                                dialogue_warnings_of(pldv.take(li as int + 1)),
                            ));
                        },
                        None => {},
                    }
                } else {
                    assert(warnings.deep_view() == wpre);
                }
            }
            li = li + 1;
        }
        proof {
            assert(pldv.take(part_lines@.len() as int) =~= pldv);
        }
        sort_lines_by_number(&mut self.lines);
        proof {
            lemma_stable_sorted_sorted(dialogue_entries_of(pldv), line_number_key());
        }
    }

    /// The line number of the performer's next pending line, or `None`
    /// when every line has been delivered. No side effects.
    pub fn next_line(&self) -> (r: Option<usize>)
        ensures
            r == spec_next_line(self@),
    {
        if self.index < self.lines.len() {
            Some(self.lines[self.index].0)
        } else {
            None
        }
    }

    /// Delivers the performer's next pending line, if any: a speaker
    /// header is emitted first when the current speaker changes, then the
    /// dialogue text; the cursor advances by one. Exhausted performers do
    /// nothing.
    pub fn speak(&mut self, current_speaker: &mut String, out: &mut Vec<Event>)
        ensures
            final(self)@ == spec_speak_player(old(self)@),
            final(current_speaker)@ == spec_speak_speaker(
                old(self)@,
                old(current_speaker)@,
            ),
            final(out).deep_view() == old(out).deep_view() + spec_speak_events(
                old(self)@,
                old(current_speaker)@,
            ),
    {
        if self.index >= self.lines.len() {
            proof {
                assert(out.deep_view() =~= out.deep_view() + Seq::<EventV>::empty());
            }
            return ;
        }
        let ghost pre = out.deep_view();
        if self.name != *current_speaker {
            *current_speaker = self.name.clone();
            out.push(Event::Blank);
            out.push(Event::Speaker(self.name.clone()));
        }
        let text = self.lines[self.index].1.clone();
        out.push(Event::Dialogue(text));
        self.index = self.index + 1;
        proof {
            assert(out.deep_view() =~= pre + spec_speak_events(
                old(self)@,
                old(current_speaker)@,
            ));
        }
    }

    /// The character name this performer delivers lines for.
    pub fn get_character_name(&self) -> (r: &String)
        ensures
            r@ == self@.name,
    {
        &self.name
    }
}

/// The number of the next pending line, or `None` when exhausted.
pub open spec fn spec_next_line(p: PlayerV) -> Option<usize> {
    if p.index < p.lines.len() {
        Some(p.lines[p.index].0)
    } else {
        None
    }
}

/// The performer after delivering one line: the cursor advances when a
/// line is pending, and nothing changes otherwise.
pub open spec fn spec_speak_player(p: PlayerV) -> PlayerV {
    if p.index < p.lines.len() {
        PlayerV { name: p.name, lines: p.lines, index: p.index + 1 }
    } else {
        p
    }
}

/// The speaker after delivering one line: the performer's own name when a
/// line is pending, the previous speaker otherwise.
pub open spec fn spec_speak_speaker(p: PlayerV, speaker: Seq<char>) -> Seq<char> {
    if p.index < p.lines.len() {
        p.name
    } else {
        speaker
    }
}

/// The narration one delivery emits: a blank line and a speaker header
/// when the speaker changes, then the dialogue text; nothing when the
/// performer is exhausted.
pub open spec fn spec_speak_events(p: PlayerV, speaker: Seq<char>) -> Seq<EventV> {
    if p.index < p.lines.len() {
        let text = p.lines[p.index].1;
        if p.name == speaker {
            seq![EventV::Dialogue(text)]
        } else {
            seq![EventV::Blank, EventV::Speaker(p.name), EventV::Dialogue(text)]
        }
    } else {
        Seq::empty()
    }
}

/// The ordering key used to arrange performers within a scene: a
/// performer with no lines sorts before every performer with lines, and
/// performers with lines compare by their first (smallest) line number.
/// This pre-sort only fixes a deterministic enumeration order; the actual
/// speaking order is chosen dynamically during recitation.
pub open spec fn player_order_key() -> spec_fn(PlayerV) -> int {
    |p: PlayerV|
        if p.lines.len() == 0 {
            -1
        } else {
            p.lines[0].0 as int
        }
}

/// Whether `a` must come after `x` in the performer ordering.
fn order_key_above(a: &Player, x: &Player) -> (r: bool)
    ensures
        r == (player_order_key()(a@) > player_order_key()(x@)),
{
    if a.lines.len() == 0 {
        false
    } else if x.lines.len() == 0 {
        true
    } else {
        a.lines[0].0 > x.lines[0].0
    }
}

/// Stable-sorts performers by the performer ordering: equal keys keep
/// their configuration order.
pub fn sort_players(v: &mut Vec<Player>)
    ensures
        final(v).deep_view() == stable_sorted(old(v).deep_view(), player_order_key()),
{
    let ghost orig = old(v).deep_view();
    let ghost key = player_order_key();
    let mut i: usize = 0;
    proof {
        assert(v.deep_view().take(0) =~= stable_sorted(orig.take(0), key));
        assert(v.deep_view().skip(0) =~= orig.skip(0));
    }
    while i < v.len()
        invariant
            i <= v@.len(),
            v@.len() == orig.len(),
            key == player_order_key(),
            v.deep_view().take(i as int) == stable_sorted(orig.take(i as int), key),
            v.deep_view().skip(i as int) == orig.skip(i as int),
            sorted_by_key(v.deep_view().take(i as int), key),
        decreases v@.len() - i,
    {
        let ghost pre = v.deep_view();
        let ghost sorted_prefix = v.deep_view().take(i as int);
        let ghost tail = pre.skip(i as int + 1);
        let x = v.remove(i);
        let ghost xdv = x@;
        proof {
            assert(v.deep_view() =~= sorted_prefix + tail);
            assert(pre.skip(i as int)[0] == orig.skip(i as int)[0]);
            assert(xdv == orig[i as int]);
        }
        let mut j: usize = i;
        while j > 0 && order_key_above(&v[j - 1], &x)
            invariant
                j <= i,
                i <= v@.len(),
                key == player_order_key(),
                v.deep_view() == sorted_prefix + tail,
                sorted_prefix.len() == i,
                xdv == x@,
                forall|m: int| j <= m < i ==> key(#[trigger] sorted_prefix[m]) > key(xdv),
            decreases j,
        {
            proof {
                assert(v.deep_view()[j - 1] == sorted_prefix[j - 1]);
            }
            j = j - 1;
        }
        proof {
            assert(j > 0 ==> v.deep_view()[j - 1] == sorted_prefix[j - 1]);
            lemma_sorted_insert_at(sorted_prefix, xdv, key, j as int);
            lemma_sorted_insert_sorted(sorted_prefix, xdv, key);
        }
        v.insert(j, x);
        proof {
            assert(v.deep_view() =~= (sorted_prefix + tail).insert(j as int, xdv));
            assert((sorted_prefix + tail).insert(j as int, xdv) =~= sorted_prefix.insert(
                j as int,
                xdv,
            ) + tail);
            assert(v.deep_view().take(i as int + 1) =~= sorted_prefix.insert(
                j as int,
                xdv,
            ));
            assert(v.deep_view().take(i as int + 1) == sorted_insert(
                sorted_prefix,
                xdv,
                key,
            ));
            assert(orig.take(i as int + 1).drop_last() =~= orig.take(i as int));
            assert(orig.take(i as int + 1).last() == orig[i as int]);
            assert(v.deep_view().take(i as int + 1) == stable_sorted(
                orig.take(i as int + 1),
                key,
            ));
            assert forall|m: int| 0 <= m < tail.len() implies tail[m] == orig.skip(
                i as int + 1,
            )[m] by {
                assert(pre.skip(i as int)[m + 1] == orig.skip(i as int)[m + 1]);
            }
            assert(tail =~= orig.skip(i as int + 1));
            assert(v.deep_view().skip(i as int + 1) =~= tail);
        }
        i = i + 1;
    }
    proof {
        assert(orig.take(orig.len() as int) =~= orig);
        assert(v.deep_view().take(orig.len() as int) =~= v.deep_view());
    }
}

/// Parsing a dialogue file is pure: two performers assembled from the
/// same name and the same lines are identical, whatever diagnostic flag
/// either run used — `prepare` pins its result to `prepared_player`,
/// a function of the input lines alone, so re-parsing the same
/// well-formed file always rebuilds the same structure.
pub proof fn lemma_parsing_pure(name: Seq<char>, lines: Seq<Seq<char>>, p1: PlayerV, p2: PlayerV)
    requires
        p1 == prepared_player(name, lines),
        p2 == prepared_player(name, lines),
    ensures
        p1 == p2,
{
}

/// Sorting dialogue by line number is stable: for every line number, the
/// entries carrying it keep their original file order, and the assembled
/// line store is sorted.
pub proof fn lemma_dialogue_sort_stable(name: Seq<char>, lines: Seq<Seq<char>>, k: int)
    ensures
        sorted_by_key(prepared_player(name, lines).lines, line_number_key()),
        prepared_player(name, lines).lines.filter(
            |e: (usize, Seq<char>)| line_number_key()(e) == k,
        ) == dialogue_entries_of(lines).filter(
            |e: (usize, Seq<char>)| line_number_key()(e) == k,
        ),
{
    lemma_stable_sorted_sorted(dialogue_entries_of(lines), line_number_key());
    crate::sorting::lemma_stable_sorted_filter(
        dialogue_entries_of(lines),
        line_number_key(),
        k,
    );
}

} // verus!
