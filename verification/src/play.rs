//! The performance: an ordered, non-empty sequence of scenes assembled
//! from a top-level script, recited once from start to finish with
//! entrances and exits threaded across scene boundaries.

use vstd::prelude::*;

use crate::declarations::{Event, EventV, Warning, WarningV, SCRIPT_GENERATION_ERROR};
use crate::player::{player_order_key, when_whinge, PlayerV};
use crate::scene_fragment::{
    fragment_wf, parts_warnings_of, players_of_parts, spec_entrances, spec_exits,
    spec_has_title, spec_recite, spec_title_events, SceneFragment, SceneFragmentV,
};
use crate::sorting::stable_sorted;
use crate::text::{join_spaces, join_tokens, split_tokens, tokens_of};

verus! {

/// The parsed top-level script: `(is title, text)` entries, where a title
/// entry carries the scene title and any other entry carries the path of
/// a scene-configuration file.
pub type ScriptConfig = Vec<(bool, String)>;

/// A full performance: its scenes, in order.
pub struct Play {
    fragments: Vec<SceneFragment>,
}

/// Spec-level view of a [`Play`].
pub struct PlayV {
    pub fragments: Seq<SceneFragmentV>,
}

impl View for Play {
    type V = PlayV;

    closed spec fn view(&self) -> PlayV {
        PlayV { fragments: self.fragments.deep_view() }
    }
}

/// A play is well formed when each of its scenes is.
pub open spec fn play_wf(p: PlayV) -> bool {
    forall|i: int| 0 <= i < p.fragments.len() ==> fragment_wf(#[trigger] p.fragments[i])
}

/// The reserved token that opens a scene-title line.
pub open spec fn scene_marker() -> Seq<char> {
    "[scene]"@
}

/// The script entry a top-level line denotes. A blank line is dropped. A
/// line opening with the scene marker is a title entry holding the
/// remaining tokens joined with single spaces; a marker without a title
/// is malformed and dropped. Any other line names a configuration file
/// with its first token; extra tokens are ignored.
pub open spec fn script_entry_of(line: Seq<char>) -> Option<(bool, Seq<char>)> {
    let toks = tokens_of(line);
    if toks.len() == 0 {
        None
    } else if toks[0] == scene_marker() {
        if toks.len() < 2 {
            None
        } else {
            Some((true, join_spaces(toks.skip(1))))
        }
    } else {
        Some((false, toks[0]))
    }
}

/// The advisory warning a top-level script line provokes: a scene marker
/// without a title, or extra tokens after a configuration-file name.
pub open spec fn script_warning_of(line: Seq<char>) -> Option<WarningV> {
    let toks = tokens_of(line);
    if toks.len() == 0 {
        None
    } else if toks[0] == scene_marker() {
        if toks.len() < 2 {
            Some(WarningV::MissingSceneTitle)
        } else {
            None
        }
    } else if toks.len() > 1 {
        Some(WarningV::ExtraScriptTokens(join_spaces(toks.skip(1))))
    } else {
        None
    }
}

/// The script entries a script file's lines yield, in file order.
pub open spec fn script_config_of(lines: Seq<Seq<char>>) -> Seq<(bool, Seq<char>)>
    decreases lines.len(),
{
    if lines.len() == 0 {
        Seq::empty()
    } else {
        let pre = script_config_of(lines.drop_last());
        match script_entry_of(lines.last()) {
            Some(e) => pre.push(e),
            None => pre,
        }
    }
}

/// The advisory warnings a script file's lines provoke.
pub open spec fn script_config_warnings_of(lines: Seq<Seq<char>>) -> Seq<WarningV>
    decreases lines.len(),
{
    if lines.len() == 0 {
        Seq::empty()
    } else {
        let pre = script_config_warnings_of(lines.drop_last());
        match script_warning_of(lines.last()) {
            Some(w) => pre.push(w),
            None => pre,
        }
    }
}

/// The pending title after the first `i` script entries: the text of the
/// entry just before, if it was a title; otherwise empty — a title is
/// consumed by the scene that follows it.
pub open spec fn spec_current_title(config: Seq<(bool, Seq<char>)>, i: int) -> Seq<char> {
    if i <= 0 {
        Seq::empty()
    } else if config[i - 1].0 {
        config[i - 1].1
    } else {
        Seq::empty()
    }
}

/// How many scene entries (non-title entries) the first `i` script
/// entries hold.
pub open spec fn spec_scene_count(config: Seq<(bool, Seq<char>)>, i: int) -> int
    decreases i,
{
    if i <= 0 {
        0
    } else {
        spec_scene_count(config, i - 1) + (if config[i - 1].0 {
            0int
        } else {
            1int
        })
    }
}

proof fn lemma_scene_count_mono(config: Seq<(bool, Seq<char>)>, i: int, j: int)
    requires
        i <= j,
    ensures
        spec_scene_count(config, i) <= spec_scene_count(config, j),
    decreases j - i,
{
    if i < j {
        lemma_scene_count_mono(config, i, j - 1);
    }
}

/// The scenes the script entries assemble to, with each scene taking the
/// pending title and the next block of parts. `parts[s]` holds the
/// `(name, dialogue lines)` parts of the `s`-th scene entry.
pub open spec fn spec_fragments_of(
    config: Seq<(bool, Seq<char>)>,
    parts: Seq<Seq<(Seq<char>, Seq<Seq<char>>)>>,
    i: int,
) -> Seq<SceneFragmentV>
    decreases i,
{
    if i <= 0 {
        Seq::empty()
    } else {
        let pre = spec_fragments_of(config, parts, i - 1);
        if config[i - 1].0 {
            pre
        } else {
            pre.push(
                SceneFragmentV {
                    title: spec_current_title(config, i - 1),
                    players: stable_sorted(
                        players_of_parts(parts[spec_scene_count(config, i - 1)]),
                        player_order_key(),
                    ),
                },
            )
        }
    }
}

/// The advisory warnings the first `k` scenes' dialogue files provoke.
pub open spec fn spec_parts_warnings_all(
    parts: Seq<Seq<(Seq<char>, Seq<Seq<char>>)>>,
    k: int,
) -> Seq<WarningV>
    decreases k,
{
    if k <= 0 {
        Seq::empty()
    } else {
        spec_parts_warnings_all(parts, k - 1) + parts_warnings_of(parts[k - 1])
    }
}

/// A scene after its recitation: same title and cast, cursors exhausted.
pub open spec fn spec_recited_fragment(f: SceneFragmentV, whinge: bool) -> SceneFragmentV {
    SceneFragmentV {
        title: f.title,
        players: spec_recite(f.players, Seq::empty(), 0, whinge).players,
    }
}

/// The narration one scene contributes to the performance: its entrances
/// (against the previous scene, or everyone for the first), its
/// recitation, a separating blank line, and its exits (against the next
/// scene, or everyone for the last).
pub open spec fn spec_round_events(
    frags: Seq<SceneFragmentV>,
    k: int,
    whinge: bool,
) -> Seq<EventV> {
    let f = frags[k];
    let enter_evs = if k == 0 {
        spec_title_events(f, true) + spec_entrances(f.players, Seq::empty())
    } else {
        spec_title_events(f, false) + spec_entrances(f.players, frags[k - 1].players)
    };
    let exit_evs = if k == frags.len() - 1 {
        spec_exits(f.players, Seq::empty())
    } else {
        spec_exits(f.players, frags[k + 1].players)
    };
    enter_evs + spec_recite(f.players, Seq::empty(), 0, whinge).events + seq![EventV::Blank]
        + exit_evs
}

/// The narration the scenes from `k` onward contribute.
pub open spec fn spec_play_events_from(
    frags: Seq<SceneFragmentV>,
    k: int,
    whinge: bool,
) -> Seq<EventV>
    decreases frags.len() - k,
{
    if k < 0 || k >= frags.len() {
        Seq::empty()
    } else {
        spec_round_events(frags, k, whinge) + spec_play_events_from(frags, k + 1, whinge)
    }
}

/// The recitation warnings the scenes from `k` onward provoke.
pub open spec fn spec_play_warnings_from(
    frags: Seq<SceneFragmentV>,
    k: int,
    whinge: bool,
) -> Seq<WarningV>
    decreases frags.len() - k,
{
    if k < 0 || k >= frags.len() {
        Seq::empty()
    } else {
        spec_recite(frags[k].players, Seq::empty(), 0, whinge).warnings
            + spec_play_warnings_from(frags, k + 1, whinge)
    }
}

/// Entrance events depend only on the names of the previous cast.
proof fn lemma_entrances_names_only(cast: Seq<PlayerV>, prev1: Seq<PlayerV>, prev2: Seq<
    PlayerV,
>)
    requires
        prev1.len() == prev2.len(),
        forall|i: int| 0 <= i < prev1.len() ==> (#[trigger] prev1[i]).name == prev2[i].name,
    ensures
        spec_entrances(cast, prev1) == spec_entrances(cast, prev2),
    decreases cast.len(),
{
    if cast.len() > 0 {
        lemma_entrances_names_only(cast.drop_last(), prev1, prev2);
        assert forall|n: Seq<char>|
            crate::scene_fragment::cast_has_name(prev1, n)
                == crate::scene_fragment::cast_has_name(prev2, n) by {
            if crate::scene_fragment::cast_has_name(prev1, n) {
                let i = choose|i: int| 0 <= i < prev1.len() && prev1[i].name == n;
                assert(prev2[i].name == n);
            }
            if crate::scene_fragment::cast_has_name(prev2, n) {
                let i = choose|i: int| 0 <= i < prev2.len() && prev2[i].name == n;
                assert(prev1[i].name == n);
            }
        }
    }
}

/// Assembling a performance is pure: two runs over the same parsed
/// script entries and the same dialogue parts build identical scene
/// structures, whatever diagnostic flag either run used — `prepare` pins
/// its result to `spec_fragments_of`, a function of the inputs alone, so
/// re-parsing the same well-formed files always rebuilds the same scenes.
pub proof fn lemma_assembly_pure(
    config: Seq<(bool, Seq<char>)>,
    parts: Seq<Seq<(Seq<char>, Seq<Seq<char>>)>>,
    f1: Seq<SceneFragmentV>,
    f2: Seq<SceneFragmentV>,
)
    requires
        f1 == spec_fragments_of(config, parts, config.len() as int),
        f2 == spec_fragments_of(config, parts, config.len() as int),
    ensures
        f1 == f2,
{
}

/// Exit events depend only on the names of the exiting cast.
proof fn lemma_exits_names_only_upto(
    cast1: Seq<PlayerV>,
    cast2: Seq<PlayerV>,
    next: Seq<PlayerV>,
    m: int,
)
    requires
        cast1.len() == cast2.len(),
        forall|i: int| 0 <= i < cast1.len() ==> (#[trigger] cast1[i]).name == cast2[i].name,
        m <= cast1.len(),
    ensures
        crate::scene_fragment::spec_exits_upto(cast1, next, m)
            == crate::scene_fragment::spec_exits_upto(cast2, next, m),
    decreases m,
{
    if m > 0 {
        lemma_exits_names_only_upto(cast1, cast2, next, m - 1);
        assert(cast1[m - 1].name == cast2[m - 1].name);
    }
}

/// Exit events depend only on the names of the exiting cast.
proof fn lemma_exits_names_only(cast1: Seq<PlayerV>, cast2: Seq<PlayerV>, next: Seq<PlayerV>)
    requires
        cast1.len() == cast2.len(),
        forall|i: int| 0 <= i < cast1.len() ==> (#[trigger] cast1[i]).name == cast2[i].name,
    ensures
        spec_exits(cast1, next) == spec_exits(cast2, next),
{
    lemma_exits_names_only_upto(cast1, cast2, next, cast1.len() as int);
}

impl Play {
    /// Creates a performance with no scenes yet.
    pub fn new() -> (p: Play)
        ensures
            p@.fragments.len() == 0,
    {
        let p = Play { fragments: Vec::new() };
        proof {
            assert(p@.fragments =~= Seq::<SceneFragmentV>::empty());
        }
        p
    }

    /// Parses one top-level script line, warning in diagnostic mode about
    /// a bare scene marker or extra tokens after a file name.
    fn add_config(line: &String, config: &mut ScriptConfig, whinge: bool, warnings: &mut Vec<
        Warning,
    >)
        ensures
            final(config).deep_view() == match script_entry_of(line@) {
                Some(e) => old(config).deep_view().push(e),
                None => old(config).deep_view(),
            },
            final(warnings).deep_view() == match script_warning_of(line@) {
                Some(w) => if whinge {
                    old(warnings).deep_view().push(w)
                } else {
                    old(warnings).deep_view()
                },
                None => old(warnings).deep_view(),
            },
    {
        let tokens = split_tokens(line.as_str());
        if tokens.len() == 0 {
            return ;
        }
        let marker = String::from_str("[scene]");
        if tokens[0] == marker {
            if tokens.len() < 2 {
                if whinge {
                    let ghost pre = warnings.deep_view();
                    warnings.push(Warning::MissingSceneTitle);
                    proof {
                        assert(warnings.deep_view() =~= pre.push(WarningV::MissingSceneTitle));
                    }
                }
            } else {
                let title = join_tokens(&tokens, 1);
                let ghost pre = config.deep_view();
                config.push((true, title));
                proof {
                    assert(config.deep_view() =~= pre.push(
                        (true, join_spaces(tokens_of(line@).skip(1))),
                    ));
                }
            }
        } else {
            let filename = tokens[0].clone();
            let ghost pre = config.deep_view();
            config.push((false, filename));
            proof {
                assert(config.deep_view() =~= pre.push((false, tokens_of(line@)[0])));
            }
            if tokens.len() > 1 && whinge {
                let extra = join_tokens(&tokens, 1);
                let ghost wpre = warnings.deep_view();
                warnings.push(Warning::ExtraScriptTokens(extra));
                proof {
                    assert(warnings.deep_view() =~= wpre.push(
                        WarningV::ExtraScriptTokens(join_spaces(tokens_of(line@).skip(1))),
                    ));
                }
            }
        }
    }

    /// Parses the lines of the top-level script file into script entries.
    /// An empty script file is a fatal error; malformed lines are
    /// advisory only.
    pub fn read_config(
        script_lines: &Vec<String>,
        config: &mut ScriptConfig,
        whinge: bool,
        warnings: &mut Vec<Warning>,
    ) -> (r: Result<(), u8>)
        ensures
            r is Ok <==> script_lines@.len() > 0,
            r is Err ==> r->Err_0 == SCRIPT_GENERATION_ERROR && *final(config) == *old(
                config,
            ) && *final(warnings) == *old(warnings),
            r is Ok ==> final(config).deep_view() == old(config).deep_view()
                + script_config_of(script_lines.deep_view()),
            r is Ok ==> final(warnings).deep_view() == old(warnings).deep_view()
                + when_whinge(whinge, script_config_warnings_of(script_lines.deep_view())),
    {
        if script_lines.len() == 0 {
            return Err(SCRIPT_GENERATION_ERROR);
        }
        let ghost sldv = script_lines.deep_view();
        let ghost c0 = config.deep_view();
        let ghost w0 = warnings.deep_view();
        let mut li: usize = 0;
        proof {
            assert(config.deep_view() =~= c0 + script_config_of(sldv.take(0)));
            assert(warnings.deep_view() =~= w0 + when_whinge(
                whinge,
                script_config_warnings_of(sldv.take(0)),
            ));
        }
        while li < script_lines.len()
            invariant
                li <= script_lines@.len(),
                sldv == script_lines.deep_view(),
                config.deep_view() == c0 + script_config_of(sldv.take(li as int)),
                warnings.deep_view() == w0 + when_whinge(
                    whinge,
                    script_config_warnings_of(sldv.take(li as int)),
                ),
            decreases script_lines@.len() - li,
        {
            let line = &script_lines[li];
            proof {
                assert(sldv.take(li as int + 1).drop_last() =~= sldv.take(li as int));
                assert(sldv.take(li as int + 1).last() == line@);
            }
            Play::add_config(line, config, whinge, warnings);
            proof {
                match script_entry_of(line@) {
                    Some(e) => {
                        assert(config.deep_view() =~= c0 + script_config_of(
                            sldv.take(li as int + 1),
                        ));
                    },
                    None => {},
                }
                if whinge {
                    match script_warning_of(line@) {
                        Some(w) => {
                            assert(warnings.deep_view() =~= w0 + when_whinge(
                                whinge,
                                script_config_warnings_of(sldv.take(li as int + 1)),
                            ));
                        },
                        None => {},
                    }
                }
            }
            li = li + 1;
        }
        proof {
            assert(sldv.take(script_lines@.len() as int) =~= sldv);
        }
        Ok(())
    }

    /// Builds the scenes from the parsed script entries. A title entry
    /// sets the pending title; a scene entry consumes it and builds a
    /// scene from the corresponding block of parts, `scene_parts[s]`
    /// holding the `(name, dialogue lines)` parts of the `s`-th scene.
    pub fn process_config(
        &mut self,
        config: &ScriptConfig,
        scene_parts: &Vec<Vec<(String, Vec<String>)>>,
        whinge: bool,
        warnings: &mut Vec<Warning>,
    )
        requires
            old(self)@.fragments.len() == 0,
            scene_parts.deep_view().len() == spec_scene_count(
                config.deep_view(),
                config.deep_view().len() as int,
            ),
        ensures
            final(self)@.fragments == spec_fragments_of(
                config.deep_view(),
                scene_parts.deep_view(),
                config.deep_view().len() as int,
            ),
            play_wf(final(self)@),
            final(warnings).deep_view() == old(warnings).deep_view() + when_whinge(
                whinge,
                spec_parts_warnings_all(
                    scene_parts.deep_view(),
                    scene_parts.deep_view().len() as int,
                ),
            ),
    {
        let ghost cdv = config.deep_view();
        let ghost pdv = scene_parts.deep_view();
        let ghost w0 = warnings.deep_view();
        let total_scenes = scene_parts.len();
        let mut title = String::new();
        let mut used: usize = 0;
        let mut i: usize = 0;
        proof {
            assert(self@.fragments =~= spec_fragments_of(cdv, pdv, 0));
            assert(warnings.deep_view() =~= w0 + when_whinge(
                whinge,
                spec_parts_warnings_all(pdv, 0),
            ));
        }
        while i < config.len()
            invariant
                i <= config@.len(),
                cdv == config.deep_view(),
                pdv == scene_parts.deep_view(),
                pdv.len() == spec_scene_count(cdv, cdv.len() as int),
                total_scenes == pdv.len(),
                used as int == spec_scene_count(cdv, i as int),
                used <= total_scenes,
                title@ == spec_current_title(cdv, i as int),
                self@.fragments == spec_fragments_of(cdv, pdv, i as int),
                play_wf(self@),
                warnings.deep_view() == w0 + when_whinge(
                    whinge,
                    spec_parts_warnings_all(pdv, used as int),
                ),
            decreases config@.len() - i,
        {
            let entry = &config[i];
            if entry.0 {
                title = entry.1.clone();
            } else {
                proof {
                    assert(cdv[i as int].0 == entry.0);
                    lemma_scene_count_mono(cdv, i as int + 1, cdv.len() as int);
                    assert(used + 1 <= total_scenes);
                }
                let mut fragment = SceneFragment::new(&title);
                title = String::new();
                fragment.prepare(&scene_parts[used], whinge, warnings);
                let ghost fpre = self@.fragments;
                self.fragments.push(fragment);
                proof {
                    assert(self@.fragments =~= fpre.push(fragment@));
                    assert forall|m: int| 0 <= m < self@.fragments.len() implies fragment_wf(
                        #[trigger] self@.fragments[m],
                    ) by {
                        if m < self@.fragments.len() - 1 {
                            assert(self@.fragments[m] == fpre[m]);
                        }
                    }
                }
                used = used + 1;
            }
            i = i + 1;
        }
        proof {
            assert(spec_scene_count(cdv, cdv.len() as int) == used as int);
        }
    }

    /// Assembles the whole performance and checks it: there must be at
    /// least one scene, and the first scene must carry a non-blank title.
    pub fn prepare(
        &mut self,
        config: &ScriptConfig,
        scene_parts: &Vec<Vec<(String, Vec<String>)>>,
        whinge: bool,
        warnings: &mut Vec<Warning>,
    ) -> (r: Result<(), u8>)
        requires
            old(self)@.fragments.len() == 0,
            scene_parts.deep_view().len() == spec_scene_count(
                config.deep_view(),
                config.deep_view().len() as int,
            ),
        ensures
            final(self)@.fragments == spec_fragments_of(
                config.deep_view(),
                scene_parts.deep_view(),
                config.deep_view().len() as int,
            ),
            play_wf(final(self)@),
            r is Ok <==> final(self)@.fragments.len() > 0 && spec_has_title(
                final(self)@.fragments[0],
            ),
            r is Err ==> r->Err_0 == SCRIPT_GENERATION_ERROR,
            final(warnings).deep_view() == old(warnings).deep_view() + when_whinge(
                whinge,
                spec_parts_warnings_all(
                    scene_parts.deep_view(),
                    scene_parts.deep_view().len() as int,
                ),
            ),
    {
        self.process_config(config, scene_parts, whinge, warnings);
        if self.fragments.len() == 0 {
            return Err(SCRIPT_GENERATION_ERROR);
        }
        if !self.fragments[0].has_scene_title() {
            return Err(SCRIPT_GENERATION_ERROR);
        }
        Ok(())
    }

    /// Recites the whole performance, scene by scene: entrances (all for
    /// the first scene, newcomers only afterwards), the scene's
    /// recitation, a blank separator, and exits (all for the last scene,
    /// departing members only otherwise).
    #[verifier::rlimit(60)]
    pub fn recite(&mut self, whinge: bool, out: &mut Vec<Event>, warnings: &mut Vec<Warning>)
        requires
            play_wf(old(self)@),
        ensures
            final(self)@.fragments.len() == old(self)@.fragments.len(),
            forall|k: int|
                0 <= k < old(self)@.fragments.len() ==> final(self)@.fragments[k]
                    == spec_recited_fragment(#[trigger] old(self)@.fragments[k], whinge),
            final(out).deep_view() == old(out).deep_view() + spec_play_events_from(
                old(self)@.fragments,
                0,
                whinge,
            ),
            final(warnings).deep_view() == old(warnings).deep_view()
                + spec_play_warnings_from(old(self)@.fragments, 0, whinge),
    {
        let ghost frags0 = self@.fragments;
        let ghost out0 = out.deep_view();
        let ghost w0 = warnings.deep_view();
        let num_fragments = self.fragments.len();
        let mut k: usize = 0;
        proof {
            assert(out.deep_view().take(out0.len() as int) =~= out0);
            assert(warnings.deep_view().take(w0.len() as int) =~= w0);
            assert(out.deep_view().skip(out0.len() as int) + spec_play_events_from(
                frags0,
                0,
                whinge,
            ) =~= spec_play_events_from(frags0, 0, whinge));
            assert(warnings.deep_view().skip(w0.len() as int) + spec_play_warnings_from(
                frags0,
                0,
                whinge,
            ) =~= spec_play_warnings_from(frags0, 0, whinge));
        }
        while k < num_fragments
            invariant
                k <= num_fragments,
                num_fragments == self.fragments@.len(),
                frags0.len() == num_fragments,
                forall|m: int|
                    0 <= m < k ==> self@.fragments[m] == spec_recited_fragment(
                        #[trigger] frags0[m],
                        whinge,
                    ),
                forall|m: int| k <= m < num_fragments ==> self@.fragments[m] == #[trigger] frags0[m],
                forall|m: int| 0 <= m < num_fragments ==> fragment_wf(#[trigger] frags0[m]),
                out0.len() <= out.deep_view().len(),
                out.deep_view().take(out0.len() as int) == out0,
                w0.len() <= warnings.deep_view().len(),
                warnings.deep_view().take(w0.len() as int) == w0,
                spec_play_events_from(frags0, 0, whinge) == out.deep_view().skip(
                    out0.len() as int,
                ) + spec_play_events_from(frags0, k as int, whinge),
                spec_play_warnings_from(frags0, 0, whinge) == warnings.deep_view().skip(
                    w0.len() as int,
                ) + spec_play_warnings_from(frags0, k as int, whinge),
            decreases num_fragments - k,
        {
            let ghost out_pre = out.deep_view();
            let ghost w_pre = warnings.deep_view();
            let ghost pre_frags = self@.fragments;
            let mut f = self.fragments.remove(k);
            proof {
                assert(pre_frags[k as int] == frags0[k as int]);
                assert(f@ == frags0[k as int]);
                assert(fragment_wf(f@));
                assert(self@.fragments =~= pre_frags.remove(k as int));
            }
            if k == 0 {
                f.enter_all(out);
            } else {
                let previous = &self.fragments[k - 1];
                proof {
                    assert(self@.fragments[k as int - 1] == pre_frags[k as int - 1]);
                    assert(previous@ == spec_recited_fragment(frags0[k as int - 1], whinge));
                    crate::scene_fragment::lemma_recite_frame(
                        frags0[k as int - 1].players,
                        Seq::empty(),
                        0,
                        whinge,
                    );
                    lemma_entrances_names_only(
                        f@.players,
                        previous@.players,
                        frags0[k as int - 1].players,
                    );
                }
                f.enter(previous, out);
            }
            let ghost after_enter = out.deep_view();
            proof {
                assert(after_enter =~= out_pre + (if k == 0 {
                    spec_title_events(frags0[k as int], true) + spec_entrances(
                        frags0[k as int].players,
                        Seq::empty(),
                    )
                } else {
                    spec_title_events(frags0[k as int], false) + spec_entrances(
                        frags0[k as int].players,
                        frags0[k as int - 1].players,
                    )
                }));
            }
            f.recite(whinge, out, warnings);
            let ghost after_recite = out.deep_view();
            proof {
                assert(after_recite =~= after_enter + spec_recite(
                    frags0[k as int].players,
                    Seq::empty(),
                    0,
                    whinge,
                ).events);
            }
            out.push(Event::Blank);
            proof {
                assert(out.deep_view() =~= after_recite.push(EventV::Blank));
            }
            let ghost after_blank = out.deep_view();
            proof {
                crate::scene_fragment::lemma_recite_frame(
                    frags0[k as int].players,
                    Seq::empty(),
                    0,
                    whinge,
                );
                assert(f@.players == spec_recite(
                    frags0[k as int].players,
                    Seq::empty(),
                    0,
                    whinge,
                ).players);
            }
            if k == num_fragments - 1 {
                proof {
                    lemma_exits_names_only(f@.players, frags0[k as int].players, Seq::empty());
                }
                f.exit_all(out);
            } else {
                let next = &self.fragments[k];
                proof {
                    assert(self@.fragments[k as int] == pre_frags[k as int + 1]);
                    assert(next@ == frags0[k as int + 1]);
                    lemma_exits_names_only(
                        f@.players,
                        frags0[k as int].players,
                        frags0[k as int + 1].players,
                    );
                }
                f.exit(next, out);
            }
            let ghost f2 = f@;
            self.fragments.insert(k, f);
            proof {
                assert(self@.fragments =~= pre_frags.update(k as int, f2));
                assert(f2 == spec_recited_fragment(frags0[k as int], whinge));
                assert(out.deep_view() =~= after_blank + (if k == num_fragments - 1 {
                    spec_exits(frags0[k as int].players, Seq::empty())
                } else {
                    spec_exits(frags0[k as int].players, frags0[k as int + 1].players)
                }));
                assert(out.deep_view() =~= out_pre + spec_round_events(
                    frags0,
                    k as int,
                    whinge,
                ));
                assert(warnings.deep_view() =~= w_pre + spec_recite(
                    frags0[k as int].players,
                    Seq::empty(),
                    0,
                    whinge,
                ).warnings);
                assert(out.deep_view().take(out0.len() as int) =~= out0);
                assert(warnings.deep_view().take(w0.len() as int) =~= w0);
                assert(out.deep_view().skip(out0.len() as int) =~= out_pre.skip(
                    out0.len() as int,
                ) + spec_round_events(frags0, k as int, whinge));
                assert(out_pre.skip(out0.len() as int) + (spec_round_events(
                    frags0,
                    k as int,
                    whinge,
                ) + spec_play_events_from(frags0, k as int + 1, whinge)) =~= (out_pre.skip(
                    out0.len() as int,
                ) + spec_round_events(frags0, k as int, whinge)) + spec_play_events_from(
                    frags0,
                    k as int + 1,
                    whinge,
                ));
                assert(warnings.deep_view().skip(w0.len() as int) =~= w_pre.skip(
                    w0.len() as int,
                ) + spec_recite(frags0[k as int].players, Seq::empty(), 0, whinge).warnings);
                assert(w_pre.skip(w0.len() as int) + (spec_recite(
                    frags0[k as int].players,
                    Seq::empty(),
                    0,
                    whinge,
                ).warnings + spec_play_warnings_from(frags0, k as int + 1, whinge)) =~= (
                w_pre.skip(w0.len() as int) + spec_recite(
                    frags0[k as int].players,
                    Seq::empty(),
                    0,
                    whinge,
                ).warnings) + spec_play_warnings_from(frags0, k as int + 1, whinge));
                assert forall|m: int| 0 <= m < k as int + 1 implies self@.fragments[m]
                    == spec_recited_fragment(#[trigger] frags0[m], whinge) by {
                    if m < k as int {
                        assert(self@.fragments[m] == spec_recited_fragment(frags0[m], whinge));
                    }
                }
            }
            k = k + 1;
        }
        proof {
            assert(spec_play_events_from(frags0, num_fragments as int, whinge) =~= Seq::<
                EventV,
            >::empty());
            assert(out.deep_view().skip(out0.len() as int) + Seq::<EventV>::empty()
                =~= out.deep_view().skip(out0.len() as int));
            assert(out.deep_view() =~= out.deep_view().take(out0.len() as int)
                + out.deep_view().skip(out0.len() as int));
            assert(warnings.deep_view().skip(w0.len() as int) + Seq::<WarningV>::empty()
                =~= warnings.deep_view().skip(w0.len() as int));
            assert(warnings.deep_view() =~= warnings.deep_view().take(w0.len() as int)
                + warnings.deep_view().skip(w0.len() as int));
        }
    }
}

} // verus!
