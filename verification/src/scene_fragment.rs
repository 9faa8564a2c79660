//! A scene: a titled (or untitled) group of performers active together.
//! The scene builds its cast from the lines of a configuration file,
//! announces entrances and exits against the neighbouring scenes, and
//! drives the merge-by-line-number recitation among its performers.

use vstd::prelude::*;

use crate::declarations::{Event, EventV, Warning, WarningV, SCRIPT_GENERATION_ERROR};
use crate::player::{
    dialogue_warnings_of, player_order_key, player_wf, prepared_player, sort_players,
    spec_speak_events, spec_speak_player, spec_speak_speaker, when_whinge, Player, PlayerV,
};
use crate::sorting::{
    lemma_stable_sorted_len, lemma_stable_sorted_membership, lemma_stable_sorted_sorted,
    stable_sorted,
};
use crate::text::{split_tokens, tokens_of, trim_spec, trim_str};

verus! {

/// A scene's cast configuration: `(character name, dialogue file path)`.
pub type PlayConfig = Vec<(String, String)>;

/// A scene fragment: a title and the cast performing it.
pub struct SceneFragment {
    title: String,
    players: Vec<Player>,
}

/// Spec-level view of a [`SceneFragment`].
pub struct SceneFragmentV {
    pub title: Seq<char>,
    pub players: Seq<PlayerV>,
}

impl View for SceneFragment {
    type V = SceneFragmentV;

    closed spec fn view(&self) -> SceneFragmentV {
        SceneFragmentV { title: self.title@, players: self.players.deep_view() }
    }
}

impl DeepView for SceneFragment {
    type V = SceneFragmentV;

    open spec fn deep_view(&self) -> SceneFragmentV {
        self.view()
    }
}

/// A fragment is well formed when each of its performers is.
pub open spec fn fragment_wf(f: SceneFragmentV) -> bool {
    forall|i: int| 0 <= i < f.players.len() ==> player_wf(#[trigger] f.players[i])
}

/// The cast entry a configuration line denotes: its first two tokens as
/// `(character name, dialogue file path)`. Lines with fewer than two
/// tokens are dropped; extra tokens beyond the second are ignored.
pub open spec fn config_entry_of(line: Seq<char>) -> Option<(Seq<char>, Seq<char>)> {
    let toks = tokens_of(line);
    if toks.len() >= 2 {
        Some((toks[0], toks[1]))
    } else {
        None
    }
}

/// The advisory warning a configuration line provokes: any token count
/// other than two is reported with the count found.
pub open spec fn config_warning_of(line: Seq<char>) -> Option<WarningV> {
    let toks = tokens_of(line);
    if toks.len() == 2 {
        None
    } else {
        Some(WarningV::ConfigTokenCount(toks.len() as usize))
    }
}

/// The cast entries a configuration file's lines yield, in file order.
pub open spec fn scene_config_of(lines: Seq<Seq<char>>) -> Seq<(Seq<char>, Seq<char>)>
    decreases lines.len(),
{
    if lines.len() == 0 {
        Seq::empty()
    } else {
        let pre = scene_config_of(lines.drop_last());
        match config_entry_of(lines.last()) {
            Some(e) => pre.push(e),
            None => pre,
        }
    }
}

/// The advisory warnings a configuration file's lines provoke.
pub open spec fn scene_config_warnings_of(lines: Seq<Seq<char>>) -> Seq<WarningV>
    decreases lines.len(),
{
    if lines.len() == 0 {
        Seq::empty()
    } else {
        let pre = scene_config_warnings_of(lines.drop_last());
        match config_warning_of(lines.last()) {
            Some(w) => pre.push(w),
            None => pre,
        }
    }
}

/// The performers that a sequence of `(name, dialogue lines)` parts
/// assemble to, in configuration order.
pub open spec fn players_of_parts(parts: Seq<(Seq<char>, Seq<Seq<char>>)>) -> Seq<PlayerV>
    decreases parts.len(),
{
    if parts.len() == 0 {
        Seq::empty()
    } else {
        players_of_parts(parts.drop_last()).push(
            prepared_player(parts.last().0, parts.last().1),
        )
    }
}

/// The advisory warnings the parts' dialogue lines provoke, in order.
pub open spec fn parts_warnings_of(parts: Seq<(Seq<char>, Seq<Seq<char>>)>) -> Seq<WarningV>
    decreases parts.len(),
{
    if parts.len() == 0 {
        Seq::empty()
    } else {
        parts_warnings_of(parts.drop_last()) + dialogue_warnings_of(parts.last().1)
    }
}

/// Whether some performer of the cast carries the name.
pub open spec fn cast_has_name(ps: Seq<PlayerV>, n: Seq<char>) -> bool {
    exists|i: int| 0 <= i < ps.len() && ps[i].name == n
}

/// Whether the fragment's title has any non-whitespace text.
pub open spec fn spec_has_title(f: SceneFragmentV) -> bool {
    trim_spec(f.title).len() != 0
}

/// The narration announcing a scene's title: nothing for a blank title;
/// otherwise the title and a following blank line, preceded by a
/// separating blank line unless this is the very first scene printed.
pub open spec fn spec_title_events(f: SceneFragmentV, is_first: bool) -> Seq<EventV> {
    if !spec_has_title(f) {
        Seq::empty()
    } else if is_first {
        seq![EventV::Title(f.title), EventV::Blank]
    } else {
        seq![EventV::Blank, EventV::Title(f.title), EventV::Blank]
    }
}

/// The entrances of the cast members absent from `prev`, in cast order.
/// With an empty `prev`, every cast member enters.
pub open spec fn spec_entrances(cast: Seq<PlayerV>, prev: Seq<PlayerV>) -> Seq<EventV>
    decreases cast.len(),
{
    if cast.len() == 0 {
        Seq::empty()
    } else {
        spec_entrances(cast.drop_last(), prev) + (if cast_has_name(prev, cast.last().name) {
            Seq::empty()
        } else {
            seq![EventV::Enter(cast.last().name)]
        })
    }
}

/// The exits of the members of `cast[0..k)` absent from `next`, in
/// reverse cast order. With an empty `next`, every one of them exits.
pub open spec fn spec_exits_upto(cast: Seq<PlayerV>, next: Seq<PlayerV>, k: int) -> Seq<
    EventV,
>
    decreases k,
{
    if k <= 0 {
        Seq::empty()
    } else {
        (if cast_has_name(next, cast[k - 1].name) {
            Seq::empty()
        } else {
            seq![EventV::Exit(cast[k - 1].name)]
        }) + spec_exits_upto(cast, next, k - 1)
    }
}

/// The exits of the cast members absent from `next`, in reverse cast
/// order.
pub open spec fn spec_exits(cast: Seq<PlayerV>, next: Seq<PlayerV>) -> Seq<EventV> {
    spec_exits_upto(cast, next, cast.len() as int)
}

/// Looks for a performer carrying `name` in the cast.
fn cast_contains_name(players: &Vec<Player>, name: &String) -> (r: bool)
    ensures
        r == cast_has_name(players.deep_view(), name@),
{
    let mut i: usize = 0;
    while i < players.len()
        invariant
            i <= players@.len(),
            forall|m: int| 0 <= m < i ==> players.deep_view()[m].name != name@,
        decreases players@.len() - i,
    {
        if *players[i].get_character_name() == *name {
            proof {
                assert(players.deep_view()[i as int].name == name@);
            }
            return true;
        }
        proof {
            assert(players.deep_view()[i as int].name != name@);
        }
        i = i + 1;
    }
    false
}

impl SceneFragment {
    /// Creates a scene with the given title and an empty cast.
    pub fn new(title: &String) -> (f: SceneFragment)
        ensures
            f@.title == title@,
            f@.players.len() == 0,
    {
        let f = SceneFragment { title: title.clone(), players: Vec::new() };
        proof {
            assert(f@.players =~= Seq::<PlayerV>::empty());
        }
        f
    }

    /// Parses one cast-configuration line: other than two tokens is
    /// warned about in diagnostic mode; the line is still used when it
    /// has at least two tokens, and dropped otherwise.
    fn add_config(line: &String, config: &mut PlayConfig, whinge: bool, warnings: &mut Vec<
        Warning,
    >)
        ensures
            final(config).deep_view() == match config_entry_of(line@) {
                Some(e) => old(config).deep_view().push(e),
                None => old(config).deep_view(),
            },
            final(warnings).deep_view() == match config_warning_of(line@) {
                Some(w) => if whinge {
                    old(warnings).deep_view().push(w)
                } else {
                    old(warnings).deep_view()
                },
                None => old(warnings).deep_view(),
            },
    {
        let tokens = split_tokens(line.as_str());
        if tokens.len() != 2 && whinge {
            let ghost pre = warnings.deep_view();
            warnings.push(Warning::ConfigTokenCount(tokens.len()));
            proof {
                assert(warnings.deep_view() =~= pre.push(
                    WarningV::ConfigTokenCount(tokens_of(line@).len() as usize),
                ));
            }
        }
        if tokens.len() >= 2 {
            let ghost pre = config.deep_view();
            let name = tokens[0].clone();
            let file = tokens[1].clone();
            config.push((name, file));
            proof {
                assert(config.deep_view() =~= pre.push(
                    (tokens_of(line@)[0], tokens_of(line@)[1]),
                ));
            }
        }
    }

    /// Parses the lines of a cast-configuration file into `(name,
    /// dialogue file path)` entries. An empty file is a fatal error;
    /// malformed lines are advisory only.
    pub fn read_config(
        config_lines: &Vec<String>,
        config: &mut PlayConfig,
        whinge: bool,
        warnings: &mut Vec<Warning>,
    ) -> (r: Result<(), u8>)
        ensures
            r is Ok <==> config_lines@.len() > 0,
            r is Err ==> r->Err_0 == SCRIPT_GENERATION_ERROR && *final(config) == *old(
                config,
            ) && *final(warnings) == *old(warnings),
            r is Ok ==> final(config).deep_view() == old(config).deep_view()
                + scene_config_of(config_lines.deep_view()),
            r is Ok ==> final(warnings).deep_view() == old(warnings).deep_view()
                + when_whinge(whinge, scene_config_warnings_of(config_lines.deep_view())),
    {
        if config_lines.len() == 0 {
            return Err(SCRIPT_GENERATION_ERROR);
        }
        let ghost cldv = config_lines.deep_view();
        let ghost c0 = config.deep_view();
        let ghost w0 = warnings.deep_view();
        let mut li: usize = 0;
        proof {
            assert(config.deep_view() =~= c0 + scene_config_of(cldv.take(0)));
            assert(warnings.deep_view() =~= w0 + when_whinge(
                whinge,
                scene_config_warnings_of(cldv.take(0)),
            ));
        }
        while li < config_lines.len()
            invariant
                li <= config_lines@.len(),
                cldv == config_lines.deep_view(),
                config.deep_view() == c0 + scene_config_of(cldv.take(li as int)),
                warnings.deep_view() == w0 + when_whinge(
                    whinge,
                    scene_config_warnings_of(cldv.take(li as int)),
                ),
            decreases config_lines@.len() - li,
        {
            let line = &config_lines[li];
            proof {
                assert(cldv.take(li as int + 1).drop_last() =~= cldv.take(li as int));
                assert(cldv.take(li as int + 1).last() == line@);
            }
            SceneFragment::add_config(line, config, whinge, warnings);
            proof {
                match config_entry_of(line@) {
                    Some(e) => {
                        assert(config.deep_view() =~= c0 + scene_config_of(
                            cldv.take(li as int + 1),
                        ));
                    },
                    None => {},
                }
                if whinge {
                    match config_warning_of(line@) {
                        Some(w) => {
                            assert(warnings.deep_view() =~= w0 + when_whinge(
                                whinge,
                                scene_config_warnings_of(cldv.take(li as int + 1)),
                            ));
                        },
                        None => {},
                    }
                }
            }
            li = li + 1;
        }
        proof {
            assert(cldv.take(config_lines@.len() as int) =~= cldv);
        }
        Ok(())
    }

    /// Builds one performer per part and adds each to the cast in
    /// configuration order. Each part hands the character's name and the
    /// raw lines of its dialogue file.
    pub fn process_config(
        &mut self,
        parts: &Vec<(String, Vec<String>)>,
        whinge: bool,
        warnings: &mut Vec<Warning>,
    )
        ensures
            final(self)@.title == old(self)@.title,
            final(self)@.players == old(self)@.players + players_of_parts(
                parts.deep_view(),
            ),
            final(warnings).deep_view() == old(warnings).deep_view() + when_whinge(
                whinge,
                parts_warnings_of(parts.deep_view()),
            ),
    {
        let ghost pdv = parts.deep_view();
        let ghost p0 = self@.players;
        let ghost w0 = warnings.deep_view();
        let ghost title0 = self@.title;
        let mut pi: usize = 0;
        proof {
            assert(self@.players =~= p0 + players_of_parts(pdv.take(0)));
            assert(warnings.deep_view() =~= w0 + when_whinge(
                whinge,
                parts_warnings_of(pdv.take(0)),
            ));
        }
        while pi < parts.len()
            invariant
                pi <= parts@.len(),
                pdv == parts.deep_view(),
                self@.title == title0,
                self@.players == p0 + players_of_parts(pdv.take(pi as int)),
                warnings.deep_view() == w0 + when_whinge(
                    whinge,
                    parts_warnings_of(pdv.take(pi as int)),
                ),
            decreases parts@.len() - pi,
        {
            let part = &parts[pi];
            proof {
                assert(pdv.take(pi as int + 1).drop_last() =~= pdv.take(pi as int));
                assert(pdv.take(pi as int + 1).last() == (part.0@, part.1.deep_view()));
            }
            let mut player = Player::new(&part.0);
            player.prepare(&part.1, whinge, warnings);
            let ghost cast_pre = self@.players;
            self.players.push(player);
            proof {
                assert(self@.players =~= cast_pre.push(
                    prepared_player(part.0@, part.1.deep_view()),
                ));
                assert(self@.players =~= p0 + players_of_parts(pdv.take(pi as int + 1)));
                assert(warnings.deep_view() =~= w0 + when_whinge(
                    whinge,
                    parts_warnings_of(pdv.take(pi as int + 1)),
                ));
            }
            pi = pi + 1;
        }
        proof {
            assert(pdv.take(parts@.len() as int) =~= pdv);
        }
    }

    /// Builds the cast from its parts and sorts it by the performer
    /// ordering, so that entrance and exit enumeration is deterministic.
    pub fn prepare(&mut self, parts: &Vec<(String, Vec<String>)>, whinge: bool, warnings:
        &mut Vec<Warning>)
        requires
            old(self)@.players.len() == 0,
        ensures
            final(self)@.title == old(self)@.title,
            final(self)@.players == stable_sorted(
                players_of_parts(parts.deep_view()),
                player_order_key(),
            ),
            fragment_wf(final(self)@),
            final(warnings).deep_view() == old(warnings).deep_view() + when_whinge(
                whinge,
                parts_warnings_of(parts.deep_view()),
            ),
    {
        self.process_config(parts, whinge, warnings);
        proof {
            assert(self@.players =~= players_of_parts(parts.deep_view()));
        }
        sort_players(&mut self.players);
        proof {
            let unsorted = players_of_parts(parts.deep_view());
            lemma_players_of_parts_wf(parts.deep_view());
            lemma_stable_sorted_membership(unsorted, player_order_key());
            assert forall|i: int| 0 <= i < self@.players.len() implies player_wf(
                #[trigger] self@.players[i],
            ) by {
                assert(self@.players.contains(self@.players[i]));
                let m = choose|m: int|
                    0 <= m < unsorted.len() && unsorted[m] == self@.players[i];
            }
        }
    }

    /// Whether this scene carries a non-blank title.
    pub fn has_scene_title(&self) -> (r: bool)
        ensures
            r == spec_has_title(self@),
    {
        let t = trim_str(self.title.as_str());
        t.as_str().unicode_len() != 0
    }

    /// Emits this scene's title events.
    fn print_scene_title(&self, is_first: bool, out: &mut Vec<Event>)
        ensures
            final(out).deep_view() == old(out).deep_view() + spec_title_events(
                self@,
                is_first,
            ),
    {
        let ghost pre = out.deep_view();
        if self.has_scene_title() {
            if !is_first {
                out.push(Event::Blank);
            }
            out.push(Event::Title(self.title.clone()));
            out.push(Event::Blank);
        }
        proof {
            assert(out.deep_view() =~= pre + spec_title_events(self@, is_first));
        }
    }

    /// Announces this scene's title and the entrance of every cast
    /// member absent from the previous scene, in cast order. A performer
    /// appearing in both scenes is continuously present and gets no
    /// entrance.
    pub fn enter(&self, previous: &SceneFragment, out: &mut Vec<Event>)
        ensures
            final(out).deep_view() == old(out).deep_view() + spec_title_events(self@, false)
                + spec_entrances(self@.players, previous@.players),
    {
        self.print_scene_title(false, out);
        self.enter_from(previous, out);
    }

    /// Announces this scene's title (as the performance's first) and the
    /// entrance of every cast member, in cast order.
    pub fn enter_all(&self, out: &mut Vec<Event>)
        ensures
            final(out).deep_view() == old(out).deep_view() + spec_title_events(self@, true)
                + spec_entrances(self@.players, Seq::empty()),
    {
        let empty = SceneFragment { title: String::new(), players: Vec::new() };
        proof {
            assert(empty@.players =~= Seq::<PlayerV>::empty());
        }
        self.print_scene_title(true, out);
        self.enter_from(&empty, out);
    }

    /// Emits the entrances of cast members absent from `previous`.
    fn enter_from(&self, previous: &SceneFragment, out: &mut Vec<Event>)
        ensures
            final(out).deep_view() == old(out).deep_view() + spec_entrances(
                self@.players,
                previous@.players,
            ),
    {
        let ghost pre = out.deep_view();
        let ghost cast = self@.players;
        let mut i: usize = 0;
        proof {
            assert(cast.take(0) =~= Seq::<PlayerV>::empty());
            assert(out.deep_view() =~= pre + spec_entrances(cast.take(0), previous@.players));
        }
        while i < self.players.len()
            invariant
                i <= self.players@.len(),
                cast == self@.players,
                out.deep_view() == pre + spec_entrances(cast.take(i as int), previous@.players),
            decreases self.players@.len() - i,
        {
            proof {
                assert(cast.take(i as int + 1).drop_last() =~= cast.take(i as int));
                assert(cast.take(i as int + 1).last() == cast[i as int]);
            }
            let name = self.players[i].get_character_name();
            if !cast_contains_name(&previous.players, name) {
                let ghost opre = out.deep_view();
                out.push(Event::Enter(name.clone()));
                proof {
                    assert(out.deep_view() =~= opre.push(EventV::Enter(cast[i as int].name)));
                    assert(out.deep_view() =~= pre + spec_entrances(
                        cast.take(i as int + 1),
                        previous@.players,
                    ));
                }
            } else {
                proof {
                    assert(out.deep_view() =~= pre + spec_entrances(
                        cast.take(i as int + 1),
                        previous@.players,
                    ));
                }
            }
            i = i + 1;
        }
        proof {
            assert(cast.take(self.players@.len() as int) =~= cast);
        }
    }

    /// Announces the exit of every cast member absent from the next
    /// scene, in reverse cast order. A performer appearing in both scenes
    /// stays on stage and gets no exit.
    pub fn exit(&self, next: &SceneFragment, out: &mut Vec<Event>)
        ensures
            final(out).deep_view() == old(out).deep_view() + spec_exits(
                self@.players,
                next@.players,
            ),
    {
        self.exit_towards(next, out);
    }

    /// Announces the exit of every cast member, in reverse cast order.
    pub fn exit_all(&self, out: &mut Vec<Event>)
        ensures
            final(out).deep_view() == old(out).deep_view() + spec_exits(
                self@.players,
                Seq::empty(),
            ),
    {
        let empty = SceneFragment { title: String::new(), players: Vec::new() };
        proof {
            assert(empty@.players =~= Seq::<PlayerV>::empty());
        }
        self.exit_towards(&empty, out);
    }

    /// Emits the exits of cast members absent from `next`, last cast
    /// member first.
    fn exit_towards(&self, next: &SceneFragment, out: &mut Vec<Event>)
        ensures
            final(out).deep_view() == old(out).deep_view() + spec_exits(
                self@.players,
                next@.players,
            ),
    {
        let ghost pre = out.deep_view();
        let ghost cast = self@.players;
        let ghost nextc = next@.players;
        let mut i: usize = self.players.len();
        proof {
            assert(spec_exits(cast, nextc) == spec_exits_upto(cast, nextc, cast.len() as int));
        }
        while i > 0
            invariant
                i <= self.players@.len(),
                cast == self@.players,
                nextc == next@.players,
                pre + spec_exits_upto(cast, nextc, cast.len() as int) == out.deep_view()
                    + spec_exits_upto(cast, nextc, i as int),
            decreases i,
        {
            let name = self.players[i - 1].get_character_name();
            if !cast_contains_name(&next.players, name) {
                let ghost opre = out.deep_view();
                out.push(Event::Exit(name.clone()));
                proof {
                    assert(out.deep_view() =~= opre.push(EventV::Exit(cast[i as int - 1].name)));
                    assert(opre.push(EventV::Exit(cast[i as int - 1].name))
                        + spec_exits_upto(cast, nextc, i as int - 1) =~= opre
                        + spec_exits_upto(cast, nextc, i as int));
                }
            } else {
                proof {
                    assert(out.deep_view() + spec_exits_upto(cast, nextc, i as int - 1)
                        =~= out.deep_view() + spec_exits_upto(cast, nextc, i as int));
                }
            }
            i = i - 1;
        }
        proof {
            assert(spec_exits_upto(cast, nextc, 0) =~= Seq::<EventV>::empty());
            assert(out.deep_view() + Seq::<EventV>::empty() =~= out.deep_view());
        }
    }
}

/// How many lines a performer still has to deliver.
pub open spec fn spec_remaining(p: PlayerV) -> int {
    if p.index < p.lines.len() {
        p.lines.len() - p.index
    } else {
        0
    }
}

/// Whether a performer still has a pending line.
pub open spec fn spec_pending(p: PlayerV) -> bool {
    p.index < p.lines.len()
}

/// The line number of a performer's next pending line.
pub open spec fn spec_head_number(p: PlayerV) -> usize {
    p.lines[p.index].0
}

/// The total number of pending lines over a cast.
pub open spec fn spec_sum_remaining(ps: Seq<PlayerV>) -> int
    decreases ps.len(),
{
    if ps.len() == 0 {
        0
    } else {
        spec_sum_remaining(ps.drop_last()) + spec_remaining(ps.last())
    }
}

/// The performer recitation selects next: the one with the globally
/// smallest pending line number, ties broken by the earliest position in
/// cast order. `None` when no line is pending.
pub open spec fn spec_pick(ps: Seq<PlayerV>) -> Option<int>
    decreases ps.len(),
{
    if ps.len() == 0 {
        None
    } else {
        let prev = spec_pick(ps.drop_last());
        let last = ps.last();
        if spec_pending(last) {
            match prev {
                None => Some(ps.len() - 1),
                Some(b) => if spec_head_number(last) < spec_head_number(ps[b]) {
                    Some(ps.len() - 1)
                } else {
                    Some(b)
                },
            }
        } else {
            prev
        }
    }
}

/// The selection is sound: a picked index is in range and pending, its
/// line number is minimal among all pending lines, it is the first
/// position achieving that minimum, and when nothing is picked no line is
/// pending anywhere.
pub proof fn lemma_spec_pick_valid(ps: Seq<PlayerV>)
    ensures
        spec_pick(ps) is Some ==> 0 <= spec_pick(ps)->0 < ps.len() && spec_pending(
            ps[spec_pick(ps)->0],
        ),
        spec_pick(ps) is Some ==> forall|i: int|
            0 <= i < ps.len() && spec_pending(#[trigger] ps[i]) ==> spec_head_number(
                ps[spec_pick(ps)->0],
            ) <= spec_head_number(ps[i]),
        spec_pick(ps) is Some ==> forall|i: int|
            0 <= i < spec_pick(ps)->0 && spec_pending(#[trigger] ps[i])
                ==> spec_head_number(ps[i]) > spec_head_number(ps[spec_pick(ps)->0]),
        spec_pick(ps) is None ==> forall|i: int|
            0 <= i < ps.len() ==> !spec_pending(#[trigger] ps[i]),
    decreases ps.len(),
{
    if ps.len() > 0 {
        lemma_spec_pick_valid(ps.drop_last());
        let d = ps.drop_last();
        assert(forall|i: int| 0 <= i < ps.len() - 1 ==> ps[i] == #[trigger] d[i]);
        if spec_pick(ps) is None {
            assert(!spec_pending(ps.last()));
            assert forall|i: int| 0 <= i < ps.len() implies !spec_pending(
                #[trigger] ps[i],
            ) by {
                if i < ps.len() - 1 {
                    assert(!spec_pending(d[i]));
                } else {
                    assert(ps[i] == ps.last());
                }
            }
        }
        if spec_pick(ps) is Some {
            let j = spec_pick(ps)->0;
            assert forall|i: int|
                0 <= i < ps.len() && spec_pending(#[trigger] ps[i]) implies spec_head_number(
                ps[j],
            ) <= spec_head_number(ps[i]) by {
                if i < ps.len() - 1 {
                    assert(spec_pending(d[i]));
                    if spec_pick(d) is Some {
                        let b = spec_pick(d)->0;
                        assert(spec_head_number(d[b]) <= spec_head_number(d[i]));
                    }
                }
            }
            assert forall|i: int|
                0 <= i < j && spec_pending(#[trigger] ps[i]) implies spec_head_number(
                ps[i],
            ) > spec_head_number(ps[j]) by {
                assert(spec_pending(d[i]));
                if spec_pick(d) is Some {
                    let b = spec_pick(d)->0;
                    assert(spec_head_number(d[b]) <= spec_head_number(d[i]));
                    if i < b {
                        assert(spec_head_number(d[i]) > spec_head_number(d[b]));
                    }
                }
            }
        }
    }
}

/// No performer ever has a negative number of pending lines.
pub proof fn lemma_sum_remaining_nonneg(ps: Seq<PlayerV>)
    ensures
        spec_sum_remaining(ps) >= 0,
    decreases ps.len(),
{
    if ps.len() > 0 {
        lemma_sum_remaining_nonneg(ps.drop_last());
    }
}

/// Replacing one performer changes the total pending count by the
/// difference of that performer's pending counts.
pub proof fn lemma_sum_remaining_update(ps: Seq<PlayerV>, j: int, q: PlayerV)
    requires
        0 <= j < ps.len(),
    ensures
        spec_sum_remaining(ps.update(j, q)) == spec_sum_remaining(ps) - spec_remaining(
            ps[j],
        ) + spec_remaining(q),
    decreases ps.len(),
{
    if j == ps.len() - 1 {
        assert(ps.update(j, q).drop_last() =~= ps.drop_last());
    } else {
        assert(ps.update(j, q).drop_last() =~= ps.drop_last().update(j, q));
        lemma_sum_remaining_update(ps.drop_last(), j, q);
    }
}

/// The warnings for the missing line numbers in `[expected, actual)`, in
/// increasing order.
pub open spec fn spec_gap_warnings(expected: int, actual: int) -> Seq<WarningV>
    decreases actual - expected,
{
    if actual <= expected {
        Seq::empty()
    } else {
        spec_gap_warnings(expected, actual - 1).push(
            WarningV::MissingLineNumber((actual - 1) as usize),
        )
    }
}

/// The advisory warnings one recitation step provokes: in diagnostic
/// mode, a gap before the delivered number is reported number by number,
/// and a number below the expected counter is reported as a duplicate.
pub open spec fn spec_step_warnings(expected: int, actual: int, whinge: bool) -> Seq<
    WarningV,
> {
    if !whinge {
        Seq::empty()
    } else if actual >= expected {
        spec_gap_warnings(expected, actual)
    } else {
        seq![WarningV::DuplicateLineNumber(actual as usize)]
    }
}

/// The expected-line counter after a step: it moves past the delivered
/// number when that number is not behind it.
pub open spec fn spec_step_expected(expected: int, actual: int) -> int {
    if actual >= expected {
        actual + 1
    } else {
        expected
    }
}

/// Everything one scene's recitation produces: the cast afterwards, the
/// final speaker and expected counter, the narration, and the warnings.
pub struct ReciteOutcome {
    pub players: Seq<PlayerV>,
    pub speaker: Seq<char>,
    pub expected: int,
    pub events: Seq<EventV>,
    pub warnings: Seq<WarningV>,
}

/// The recitation of a cast: repeatedly select the performer with the
/// smallest pending line number (earliest position on ties), report gaps
/// and duplicates against the expected counter, and have the selected
/// performer deliver its line, until no line is pending.
pub open spec fn spec_recite(
    ps: Seq<PlayerV>,
    speaker: Seq<char>,
    expected: int,
    whinge: bool,
) -> ReciteOutcome
    decreases spec_sum_remaining(ps),
    via spec_recite_decreases
{
    match spec_pick(ps) {
        None => ReciteOutcome {
            players: ps,
            speaker: speaker,
            expected: expected,
            events: Seq::empty(),
            warnings: Seq::empty(),
        },
        Some(j) => {
            let p = ps[j];
            let actual = spec_head_number(p) as int;
            let rest = spec_recite(
                ps.update(j, spec_speak_player(p)),
                spec_speak_speaker(p, speaker),
                spec_step_expected(expected, actual),
                whinge,
            );
            ReciteOutcome {
                players: rest.players,
                speaker: rest.speaker,
                expected: rest.expected,
                events: spec_speak_events(p, speaker) + rest.events,
                warnings: spec_step_warnings(expected, actual, whinge) + rest.warnings,
            }
        },
    }
}

#[via_fn]
proof fn spec_recite_decreases(ps: Seq<PlayerV>, speaker: Seq<char>, expected: int, whinge: bool) {
    match spec_pick(ps) {
        Some(j) => {
            lemma_spec_pick_valid(ps);
            lemma_sum_remaining_update(ps, j, spec_speak_player(ps[j]));
            lemma_sum_remaining_nonneg(ps.update(j, spec_speak_player(ps[j])));
        },
        None => {},
    }
}

impl SceneFragment {
    /// Recites this scene: repeatedly the performer with the smallest
    /// pending line number delivers a line (ties go to the earliest cast
    /// position), with gaps and duplicate line numbers reported in
    /// diagnostic mode, until every performer is exhausted.
    pub fn recite(&mut self, whinge: bool, out: &mut Vec<Event>, warnings: &mut Vec<Warning>)
        requires
            fragment_wf(old(self)@),
        ensures
            final(self)@.title == old(self)@.title,
            final(self)@.players == spec_recite(
                old(self)@.players,
                Seq::empty(),
                0,
                whinge,
            ).players,
            final(out).deep_view() == old(out).deep_view() + spec_recite(
                old(self)@.players,
                Seq::empty(),
                0,
                whinge,
            ).events,
            final(warnings).deep_view() == old(warnings).deep_view() + spec_recite(
                old(self)@.players,
                Seq::empty(),
                0,
                whinge,
            ).warnings,
    {
        let mut current_speaker = String::new();
        let mut expected: u128 = 0;
        let ghost g = spec_recite(self@.players, Seq::empty(), 0, whinge);
        let ghost out0 = out.deep_view();
        let ghost w0 = warnings.deep_view();
        let ghost title0 = self@.title;
        proof {
            assert(out.deep_view().take(out0.len() as int) =~= out0);
            assert(warnings.deep_view().take(w0.len() as int) =~= w0);
            assert(out.deep_view().skip(out0.len() as int) + g.events =~= g.events);
            assert(warnings.deep_view().skip(w0.len() as int) + g.warnings =~= g.warnings);
        }
        loop
            invariant
                fragment_wf(self@),
                self@.title == title0,
                0 <= expected as int <= usize::MAX as int + 1,
                out0.len() <= out.deep_view().len(),
                out.deep_view().take(out0.len() as int) == out0,
                w0.len() <= warnings.deep_view().len(),
                warnings.deep_view().take(w0.len() as int) == w0,
                g.players == spec_recite(
                    self@.players,
                    current_speaker@,
                    expected as int,
                    whinge,
                ).players,
                g.events == out.deep_view().skip(out0.len() as int) + spec_recite(
                    self@.players,
                    current_speaker@,
                    expected as int,
                    whinge,
                ).events,
                g.warnings == warnings.deep_view().skip(w0.len() as int) + spec_recite(
                    self@.players,
                    current_speaker@,
                    expected as int,
                    whinge,
                ).warnings,
            ensures
                spec_pick(self@.players) is None,
                fragment_wf(self@),
                self@.title == title0,
                out.deep_view().take(out0.len() as int) == out0,
                warnings.deep_view().take(w0.len() as int) == w0,
                out0.len() <= out.deep_view().len(),
                w0.len() <= warnings.deep_view().len(),
                g.players == self@.players,
                g.events == out.deep_view().skip(out0.len() as int),
                g.warnings == warnings.deep_view().skip(w0.len() as int),
            decreases spec_sum_remaining(self@.players),
        {
            // select the pending performer with the smallest line number
            let mut best: Option<usize> = None;
            let mut best_num: usize = 0;
            let mut idx: usize = 0;
            while idx < self.players.len()
                invariant
                    idx <= self.players@.len(),
                    best is None ==> spec_pick(self@.players.take(idx as int)) is None,
                    best is Some ==> spec_pick(self@.players.take(idx as int)) == Some(
                        best->0 as int,
                    ),
                    best is Some ==> best->0 < idx,
                    best is Some ==> spec_pending(self@.players[best->0 as int])
                        && best_num == spec_head_number(self@.players[best->0 as int]),
                decreases self.players@.len() - idx,
            {
                proof {
                    assert(self@.players.take(idx as int + 1).drop_last() =~= self@.players.take(
                        idx as int,
                    ));
                    assert(self@.players.take(idx as int + 1).last() == self@.players[idx as int]);
                }
                match self.players[idx].next_line() {
                    Some(num) => {
                        if best.is_none() || num < best_num {
                            best = Some(idx);
                            best_num = num;
                        }
                    },
                    None => {},
                }
                idx = idx + 1;
            }
            proof {
                assert(self@.players.take(self.players@.len() as int) =~= self@.players);
            }
            let (j, actual) = match best {
                None => {
                    proof {
                        assert(out.deep_view().skip(out0.len() as int) + Seq::<
                            EventV,
                        >::empty() =~= out.deep_view().skip(out0.len() as int));
                        assert(warnings.deep_view().skip(w0.len() as int) + Seq::<
                            WarningV,
                        >::empty() =~= warnings.deep_view().skip(w0.len() as int));
                    }
                    break ;
                },
                Some(j) => (j, best_num),
            };
            let ghost pre_players = self@.players;
            let ghost pre_speaker = current_speaker@;
            let ghost pre_expected = expected as int;
            let ghost out_pre = out.deep_view();
            let ghost w_pre = warnings.deep_view();
            proof {
                lemma_spec_pick_valid(pre_players);
            }
            // gap and duplicate detection against the expected counter
            if (actual as u128) > expected {
                if whinge {
                    proof {
                        assert(expected <= usize::MAX as u128);
                    }
                    let mut m: usize = expected as usize;
                    proof {
                        assert(warnings.deep_view() =~= w_pre + spec_gap_warnings(
                            pre_expected,
                            m as int,
                        ));
                    }
                    while m < actual
                        invariant
                            pre_expected <= m as int <= actual as int,
                            warnings.deep_view() == w_pre + spec_gap_warnings(
                                pre_expected,
                                m as int,
                            ),
                        decreases actual as int - m,
                    {
                        let ghost wp = warnings.deep_view();
                        warnings.push(Warning::MissingLineNumber(m));
                        proof {
                            assert(warnings.deep_view() =~= wp.push(
                                WarningV::MissingLineNumber(m),
                            ));
                        }
                        m = m + 1;
                    }
                }
                expected = actual as u128 + 1;
            } else if (actual as u128) == expected {
                expected = expected + 1;
            } else {
                if whinge {
                    let ghost wp = warnings.deep_view();
                    warnings.push(Warning::DuplicateLineNumber(actual));
                    proof {
                        assert(warnings.deep_view() =~= wp.push(
                            WarningV::DuplicateLineNumber(actual),
                        ));
                        assert(warnings.deep_view() =~= w_pre + spec_step_warnings(
                            pre_expected,
                            actual as int,
                            whinge,
                        ));
                    }
                }
            }
            proof {
                assert(warnings.deep_view() =~= w_pre + spec_step_warnings(
                    pre_expected,
                    actual as int,
                    whinge,
                ));
                assert(expected as int == spec_step_expected(pre_expected, actual as int));
            }
            // the selected performer delivers its line
            let mut p = self.players.remove(j);
            proof {
                assert(p@ == pre_players[j as int]);
            }
            p.speak(&mut current_speaker, out);
            let ghost p2 = p@;
            self.players.insert(j, p);
            proof {
                assert(self@.players =~= pre_players.update(j as int, p2));
                let picked = pre_players[j as int];
                assert(p2 == spec_speak_player(picked));
                let cur = spec_recite(pre_players, pre_speaker, pre_expected, whinge);
                let rest = spec_recite(
                    self@.players,
                    current_speaker@,
                    expected as int,
                    whinge,
                );
                assert(spec_pick(pre_players) == Some(j as int));
                assert(cur.players == rest.players);
                assert(cur.events == spec_speak_events(picked, pre_speaker) + rest.events);
                assert(cur.warnings == spec_step_warnings(
                    pre_expected,
                    actual as int,
                    whinge,
                ) + rest.warnings);
                assert(out.deep_view() =~= out_pre + spec_speak_events(picked, pre_speaker));
                assert(out.deep_view().take(out0.len() as int) =~= out0);
                assert(warnings.deep_view().take(w0.len() as int) =~= w0);
                assert(out.deep_view().skip(out0.len() as int) =~= out_pre.skip(
                    out0.len() as int,
                ) + spec_speak_events(picked, pre_speaker));
                assert(out_pre.skip(out0.len() as int) + (spec_speak_events(
                    picked,
                    pre_speaker,
                ) + rest.events) =~= (out_pre.skip(out0.len() as int) + spec_speak_events(
                    picked,
                    pre_speaker,
                )) + rest.events);
                assert(warnings.deep_view().skip(w0.len() as int) =~= w_pre.skip(
                    w0.len() as int,
                ) + spec_step_warnings(pre_expected, actual as int, whinge));
                assert(w_pre.skip(w0.len() as int) + (spec_step_warnings(
                    pre_expected,
                    actual as int,
                    whinge,
                ) + rest.warnings) =~= (w_pre.skip(w0.len() as int) + spec_step_warnings(
                    pre_expected,
                    actual as int,
                    whinge,
                )) + rest.warnings);
                assert forall|i: int| 0 <= i < self@.players.len() implies player_wf(
                    #[trigger] self@.players[i],
                ) by {
                    if i != j as int {
                        assert(self@.players[i] == pre_players[i]);
                    }
                }
                lemma_sum_remaining_update(pre_players, j as int, p2);
                lemma_sum_remaining_nonneg(self@.players);
            }
        }
        proof {
            assert(out.deep_view() =~= out.deep_view().take(out0.len() as int)
                + out.deep_view().skip(out0.len() as int));
            assert(warnings.deep_view() =~= warnings.deep_view().take(w0.len() as int)
                + warnings.deep_view().skip(w0.len() as int));
        }
    }
}

/// The number of dialogue lines among the events.
pub open spec fn count_dialogue(evs: Seq<EventV>) -> int {
    evs.filter(|e: EventV| e is Dialogue).len() as int
}

proof fn lemma_sum_remaining_zero(ps: Seq<PlayerV>)
    requires
        forall|i: int| 0 <= i < ps.len() ==> !spec_pending(#[trigger] ps[i]),
    ensures
        spec_sum_remaining(ps) == 0,
    decreases ps.len(),
{
    if ps.len() > 0 {
        assert(forall|i: int|
            0 <= i < ps.len() - 1 ==> ps.drop_last()[i] == #[trigger] ps[i]);
        assert(forall|i: int|
            0 <= i < ps.drop_last().len() ==> !spec_pending(#[trigger] ps.drop_last()[i]));
        lemma_sum_remaining_zero(ps.drop_last());
        assert(!spec_pending(ps.last()));
    }
}

proof fn lemma_speak_dialogue_count(p: PlayerV, speaker: Seq<char>)
    requires
        spec_pending(p),
    ensures
        count_dialogue(spec_speak_events(p, speaker)) == 1,
{
    reveal_with_fuel(Seq::filter, 5);
    let pred = |e: EventV| e is Dialogue;
    let evs = spec_speak_events(p, speaker);
    assert(Seq::<EventV>::empty().filter(pred) =~= Seq::<EventV>::empty());
    if p.name == speaker {
        assert(evs.drop_last() =~= Seq::<EventV>::empty());
        assert(evs.last() == EventV::Dialogue(p.lines[p.index].1));
        assert(evs.filter(pred).len() == 1);
    } else {
        let s1 = seq![EventV::Blank];
        let s2 = seq![EventV::Blank, EventV::Speaker(p.name)];
        assert(s1.drop_last() =~= Seq::<EventV>::empty());
        assert(s1.last() == EventV::Blank);
        assert(!pred(EventV::Blank));
        assert(s1.filter(pred) =~= Seq::<EventV>::empty());
        assert(s2.drop_last() =~= s1);
        assert(s2.last() == EventV::Speaker(p.name));
        assert(!pred(EventV::Speaker(p.name)));
        assert(s2.filter(pred) =~= Seq::<EventV>::empty());
        assert(evs.drop_last() =~= s2);
        assert(evs.last() == EventV::Dialogue(p.lines[p.index].1));
        assert(evs.filter(pred).len() == 1);
    }
}

/// Recitation exhausts every performer's lines exactly once: the cast
/// keeps its names and its lines, every cursor ends past its last line,
/// and the number of dialogue lines emitted equals the total number of
/// lines the cast had pending.
pub proof fn lemma_recite_exhausts(ps: Seq<PlayerV>, speaker: Seq<char>, expected: int, whinge: bool)
    requires
        forall|i: int| 0 <= i < ps.len() ==> player_wf(#[trigger] ps[i]),
    ensures
        spec_recite(ps, speaker, expected, whinge).players.len() == ps.len(),
        forall|i: int|
            0 <= i < ps.len() ==> (#[trigger] spec_recite(
                ps,
                speaker,
                expected,
                whinge,
            ).players[i]).name == ps[i].name,
        forall|i: int|
            0 <= i < ps.len() ==> (#[trigger] spec_recite(
                ps,
                speaker,
                expected,
                whinge,
            ).players[i]).lines == ps[i].lines,
        forall|i: int|
            0 <= i < ps.len() ==> (#[trigger] spec_recite(
                ps,
                speaker,
                expected,
                whinge,
            ).players[i]).index == ps[i].lines.len(),
        count_dialogue(spec_recite(ps, speaker, expected, whinge).events)
            == spec_sum_remaining(ps),
    decreases spec_sum_remaining(ps),
{
    lemma_spec_pick_valid(ps);
    lemma_sum_remaining_nonneg(ps);
    let r = spec_recite(ps, speaker, expected, whinge);
    match spec_pick(ps) {
        None => {
            reveal(Seq::filter);
            assert(r.events =~= Seq::<EventV>::empty());
            assert(count_dialogue(r.events) == 0);
            lemma_sum_remaining_zero(ps);
        },
        Some(j) => {
            let p = ps[j];
            let p2 = spec_speak_player(p);
            let ps2 = ps.update(j, p2);
            assert forall|i: int| 0 <= i < ps2.len() implies player_wf(
                #[trigger] ps2[i],
            ) by {
                if i != j {
                    assert(ps2[i] == ps[i]);
                }
            }
            lemma_sum_remaining_update(ps, j, p2);
            lemma_sum_remaining_nonneg(ps2);
            lemma_recite_exhausts(
                ps2,
                spec_speak_speaker(p, speaker),
                spec_step_expected(expected, spec_head_number(p) as int),
                whinge,
            );
            let rest = spec_recite(
                ps2,
                spec_speak_speaker(p, speaker),
                spec_step_expected(expected, spec_head_number(p) as int),
                whinge,
            );
            assert forall|i: int| 0 <= i < ps.len() implies (#[trigger] r.players[i]).name
                == ps[i].name && r.players[i].lines == ps[i].lines && r.players[i].index
                == ps[i].lines.len() by {
                assert(r.players[i] == rest.players[i]);
                if i != j {
                    assert(ps2[i] == ps[i]);
                } else {
                    assert(ps2[i] == p2);
                }
            }
            Seq::<EventV>::filter_distributes_over_add(
                spec_speak_events(p, speaker),
                rest.events,
                |e: EventV| e is Dialogue,
            );
            lemma_speak_dialogue_count(p, speaker);
        },
    }
}

/// Recitation does not change how many performers the cast has, nor
/// their names, nor their lines.
pub proof fn lemma_recite_frame(ps: Seq<PlayerV>, speaker: Seq<char>, expected: int, whinge: bool)
    requires
        forall|i: int| 0 <= i < ps.len() ==> player_wf(#[trigger] ps[i]),
    ensures
        spec_recite(ps, speaker, expected, whinge).players.len() == ps.len(),
        forall|i: int|
            0 <= i < ps.len() ==> (#[trigger] spec_recite(
                ps,
                speaker,
                expected,
                whinge,
            ).players[i]).name == ps[i].name,
        forall|i: int|
            0 <= i < ps.len() ==> (#[trigger] spec_recite(
                ps,
                speaker,
                expected,
                whinge,
            ).players[i]).lines == ps[i].lines,
{
    lemma_recite_exhausts(ps, speaker, expected, whinge);
}

/// The set of names the cast carries.
pub open spec fn cast_name_set(ps: Seq<PlayerV>) -> Set<Seq<char>> {
    Set::new(|n: Seq<char>| cast_has_name(ps, n))
}

/// The names announced by the entrance and exit events of a narration.
pub open spec fn event_names(evs: Seq<EventV>) -> Set<Seq<char>> {
    Set::new(
        |n: Seq<char>|
            exists|i: int|
                0 <= i < evs.len() && (evs[i] == EventV::Exit(n) || evs[i]
                    == EventV::Enter(n)),
    )
}

proof fn lemma_exit_event_names(cast: Seq<PlayerV>, next: Seq<PlayerV>, m: int)
    requires
        0 <= m <= cast.len(),
    ensures
        event_names(spec_exits_upto(cast, next, m)) == Set::new(
            |n: Seq<char>|
                exists|i: int|
                    0 <= i < m && cast[i].name == n && !cast_has_name(next, n),
        ),
    decreases m,
{
    let target = Set::new(
        |n: Seq<char>|
            exists|i: int| 0 <= i < m && cast[i].name == n && !cast_has_name(next, n),
    );
    if m == 0 {
        assert(event_names(spec_exits_upto(cast, next, 0)) =~= target);
    } else {
        lemma_exit_event_names(cast, next, m - 1);
        let e_pre = spec_exits_upto(cast, next, m - 1);
        let e_m = spec_exits_upto(cast, next, m);
        let name = cast[m - 1].name;
        if cast_has_name(next, name) {
            assert(e_m =~= e_pre);
            assert forall|n: Seq<char>| target.contains(n) implies event_names(
                e_m,
            ).contains(n) by {
                let i = choose|i: int|
                    0 <= i < m && cast[i].name == n && !cast_has_name(next, n);
                assert(0 <= i < m - 1 && cast[i].name == n && !cast_has_name(next, n));
            }
            assert forall|n: Seq<char>| event_names(e_m).contains(n) implies target.contains(
                n,
            ) by {
                assert(event_names(e_pre).contains(n));
            }
            assert(event_names(e_m) =~= target);
        } else {
            assert(e_m =~= seq![EventV::Exit(name)] + e_pre);
            assert forall|n: Seq<char>| target.contains(n) implies event_names(
                e_m,
            ).contains(n) by {
                let i = choose|i: int|
                    0 <= i < m && cast[i].name == n && !cast_has_name(next, n);
                if i < m - 1 {
                    assert(event_names(e_pre).contains(n));
                    let j = choose|j: int|
                        0 <= j < e_pre.len() && (e_pre[j] == EventV::Exit(n) || e_pre[j]
                            == EventV::Enter(n));
                    assert(e_m[j + 1] == e_pre[j]);
                } else {
                    assert(e_m[0] == EventV::Exit(n));
                }
            }
            assert forall|n: Seq<char>| event_names(e_m).contains(n) implies target.contains(
                n,
            ) by {
                let j = choose|j: int|
                    0 <= j < e_m.len() && (e_m[j] == EventV::Exit(n) || e_m[j]
                        == EventV::Enter(n));
                if j == 0 {
                    assert(cast[m - 1].name == n && !cast_has_name(next, n));
                } else {
                    assert(e_pre[j - 1] == e_m[j]);
                    assert(event_names(e_pre).contains(n));
                    let i = choose|i: int|
                        0 <= i < m - 1 && cast[i].name == n && !cast_has_name(next, n);
                }
            }
            assert(event_names(e_m) =~= target);
        }
    }
}

proof fn lemma_enter_event_names(cast: Seq<PlayerV>, prev: Seq<PlayerV>)
    ensures
        event_names(spec_entrances(cast, prev)) == Set::new(
            |n: Seq<char>|
                exists|i: int|
                    0 <= i < cast.len() && cast[i].name == n && !cast_has_name(prev, n),
        ),
    decreases cast.len(),
{
    let target = Set::new(
        |n: Seq<char>|
            exists|i: int|
                0 <= i < cast.len() && cast[i].name == n && !cast_has_name(prev, n),
    );
    let e_m = spec_entrances(cast, prev);
    if cast.len() == 0 {
        assert(event_names(e_m) =~= target);
    } else {
        lemma_enter_event_names(cast.drop_last(), prev);
        let e_pre = spec_entrances(cast.drop_last(), prev);
        let name = cast.last().name;
        assert(forall|i: int|
            0 <= i < cast.len() - 1 ==> #[trigger] cast.drop_last()[i] == cast[i]);
        if cast_has_name(prev, name) {
            assert(e_m =~= e_pre);
            assert forall|n: Seq<char>| target.contains(n) implies event_names(
                e_m,
            ).contains(n) by {
                let i = choose|i: int|
                    0 <= i < cast.len() && cast[i].name == n && !cast_has_name(prev, n);
                assert(0 <= i < cast.len() - 1 && cast.drop_last()[i].name == n
                    && !cast_has_name(prev, n));
            }
            assert forall|n: Seq<char>| event_names(e_m).contains(n) implies target.contains(
                n,
            ) by {
                assert(event_names(e_pre).contains(n));
                let i = choose|i: int|
                    0 <= i < cast.drop_last().len() && cast.drop_last()[i].name == n
                        && !cast_has_name(prev, n);
            }
            assert(event_names(e_m) =~= target);
        } else {
            assert(e_m =~= e_pre + seq![EventV::Enter(name)]);
            assert forall|n: Seq<char>| target.contains(n) implies event_names(
                e_m,
            ).contains(n) by {
                let i = choose|i: int|
                    0 <= i < cast.len() && cast[i].name == n && !cast_has_name(prev, n);
                if i < cast.len() - 1 {
                    assert(cast.drop_last()[i].name == n);
                    assert(event_names(e_pre).contains(n));
                    let j = choose|j: int|
                        0 <= j < e_pre.len() && (e_pre[j] == EventV::Exit(n) || e_pre[j]
                            == EventV::Enter(n));
                    assert(e_m[j] == e_pre[j]);
                } else {
                    assert(e_m[e_m.len() - 1] == EventV::Enter(n));
                }
            }
            assert forall|n: Seq<char>| event_names(e_m).contains(n) implies target.contains(
                n,
            ) by {
                let j = choose|j: int|
                    0 <= j < e_m.len() && (e_m[j] == EventV::Exit(n) || e_m[j]
                        == EventV::Enter(n));
                if j == e_m.len() - 1 {
                    assert(cast[cast.len() - 1].name == n && !cast_has_name(prev, n));
                } else {
                    assert(e_pre[j] == e_m[j]);
                    assert(event_names(e_pre).contains(n));
                    let i = choose|i: int|
                        0 <= i < cast.drop_last().len() && cast.drop_last()[i].name == n
                            && !cast_has_name(prev, n);
                    assert(cast[i].name == n);
                }
            }
            assert(event_names(e_m) =~= target);
        }
    }
}

/// Exits and entrances at a scene boundary partition the casts: the
/// names exited towards the next scene are exactly this cast's names
/// absent from the next cast; together with the retained names (those in
/// both casts) they make up this scene's full cast, and no name is both
/// exited and retained. Likewise the names entering from the previous
/// scene are exactly the next cast's names that were absent before.
pub proof fn lemma_exit_enter_partition(f: SceneFragmentV, g: SceneFragmentV)
    ensures
        event_names(spec_exits(f.players, g.players)) == cast_name_set(f.players).difference(
            cast_name_set(g.players),
        ),
        event_names(spec_entrances(g.players, f.players)) == cast_name_set(
            g.players,
        ).difference(cast_name_set(f.players)),
        event_names(spec_exits(f.players, g.players)).union(
            cast_name_set(f.players).intersect(cast_name_set(g.players)),
        ) == cast_name_set(f.players),
        event_names(spec_exits(f.players, g.players)).disjoint(
            cast_name_set(f.players).intersect(cast_name_set(g.players)),
        ),
        event_names(spec_entrances(g.players, f.players)).union(
            cast_name_set(g.players).intersect(cast_name_set(f.players)),
        ) == cast_name_set(g.players),
        event_names(spec_entrances(g.players, f.players)).disjoint(
            cast_name_set(g.players).intersect(cast_name_set(f.players)),
        ),
{
    lemma_exit_event_names(f.players, g.players, f.players.len() as int);
    lemma_enter_event_names(g.players, f.players);
    assert(event_names(spec_exits(f.players, g.players)) =~= cast_name_set(
        f.players,
    ).difference(cast_name_set(g.players)));
    assert(event_names(spec_entrances(g.players, f.players)) =~= cast_name_set(
        g.players,
    ).difference(cast_name_set(f.players)));
    assert(cast_name_set(f.players).difference(cast_name_set(g.players)).union(
        cast_name_set(f.players).intersect(cast_name_set(g.players)),
    ) =~= cast_name_set(f.players));
    assert(cast_name_set(g.players).difference(cast_name_set(f.players)).union(
        cast_name_set(g.players).intersect(cast_name_set(f.players)),
    ) =~= cast_name_set(g.players));
}

/// Every performer assembled from parts is well formed.
proof fn lemma_players_of_parts_wf(parts: Seq<(Seq<char>, Seq<Seq<char>>)>)
    ensures
        forall|i: int|
            0 <= i < players_of_parts(parts).len() ==> player_wf(
                #[trigger] players_of_parts(parts)[i],
            ),
    decreases parts.len(),
{
    if parts.len() > 0 {
        lemma_players_of_parts_wf(parts.drop_last());
        let entries = crate::player::dialogue_entries_of(parts.last().1);
        lemma_stable_sorted_sorted(entries, crate::player::line_number_key());
        lemma_stable_sorted_len(entries, crate::player::line_number_key());
        let all = players_of_parts(parts);
        let prev = players_of_parts(parts.drop_last());
        assert forall|i: int| 0 <= i < all.len() implies player_wf(#[trigger] all[i]) by {
            if i < all.len() - 1 {
                assert(all[i] == prev[i]);
                assert(player_wf(prev[i]));
            } else {
                assert(all[i] == prepared_player(parts.last().0, parts.last().1));
            }
        }
    }
}

} // verus!
