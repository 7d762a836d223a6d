use phonia::annotation::Annotation;
use phonia::issues::IntegrityIssue;
use phonia::engine::{AnnotationId, AudioId, EngineError};
use phonia::ids::{PointId, TierId};
use phonia::model::{AlignMode, Interval, LabelTarget, Point, Tier, TierRelation};
use phonia::search::LabelQuery;
use phonia::session::{Applied, Command, Session};
use phonia::time::Time;

fn t(x: f64) -> Time {
    Time::from_bits(x.to_bits())
}

fn f(time: Time) -> f64 {
    f64::from_bits(time.to_bits())
}

/// Everything observable of a session's state, in a fixed order: audio ids
/// with their entries, then documents with their audio, domain and tiers.
fn fingerprint(session: &Session<String>) -> String {
    let mut out = String::new();
    for id in session.audio_ids_sorted() {
        out.push_str(&format!("a{}={:?};", id.as_u64(), session.audio_entry(id)));
    }
    for id in session.annotation_ids() {
        let annotation = session.annotation(id).unwrap();
        out.push_str(&format!(
            "d{}@{}[{:?},{:?}]{:?};",
            id.as_u64(),
            session.annotation_audio(id).unwrap().as_u64(),
            annotation.xmin(),
            annotation.xmax(),
            annotation.tiers()
        ));
    }
    out
}

struct Rng(u64);

impl Rng {
    fn new(seed: u64) -> Self {
        Self(seed | 1)
    }

    fn next_u64(&mut self) -> u64 {
        let mut x = self.0;
        x ^= x << 13;
        x ^= x >> 7;
        x ^= x << 17;
        self.0 = x;
        x
    }

    fn below(&mut self, n: usize) -> usize {
        (self.next_u64() % n as u64) as usize
    }

    fn frac(&mut self) -> f64 {
        (self.next_u64() >> 11) as f64 / (1u64 << 53) as f64
    }
}

fn annotation_with_tier(xmax: f64) -> Annotation {
    let mut annotation = Annotation::new(t(0.0), t(xmax)).unwrap();
    annotation
        .add_interval_tier("phones", TierRelation::Independent)
        .unwrap();
    annotation
}

fn base_engine() -> (Session<String>, AudioId, AnnotationId) {
    let mut engine: Session<String> = Session::new();
    let audio = match engine
        .apply(Command::ImportAudio {
            audio: "base".to_string(),
        })
        .unwrap()
    {
        Applied::AudioImported { audio } => audio,
        other => panic!("expected AudioImported, got {other:?}"),
    };
    let annotation = annotation_with_tier(2.0);
    let doc = match engine
        .apply(Command::AttachAnnotation { audio, annotation })
        .unwrap()
    {
        Applied::AnnotationAttached { annotation, .. } => annotation,
        other => panic!("expected AnnotationAttached, got {other:?}"),
    };
    (engine, audio, doc)
}

fn interval_tiers(annotation: &Annotation) -> Vec<(TierId, Vec<Interval>)> {
    annotation
        .tiers()
        .iter()
        .filter_map(|slot| match &slot.tier {
            Tier::Interval(tier) => Some((
                slot.id,
                tier.intervals.iter().map(|interval| interval.duplicate()).collect(),
            )),
            Tier::Point(_) => None,
        })
        .collect()
}

fn point_tiers(annotation: &Annotation) -> Vec<(TierId, Vec<Point>)> {
    annotation
        .tiers()
        .iter()
        .filter_map(|slot| match &slot.tier {
            Tier::Point(tier) => Some((
                slot.id,
                tier.points.iter().map(|point| point.duplicate()).collect(),
            )),
            Tier::Interval(_) => None,
        })
        .collect()
}

fn movable_points(annotation: &Annotation) -> Vec<(PointId, f64, f64)> {
    let mut out = Vec::new();
    for (_tier, points) in point_tiers(annotation) {
        for (index, point) in points.iter().enumerate() {
            let lower = if index > 0 {
                f(points[index - 1].time)
            } else {
                f(annotation.xmin())
            };
            let upper = if index + 1 < points.len() {
                f(points[index + 1].time)
            } else {
                f(annotation.xmax())
            };
            if upper > lower {
                out.push((point.id, lower, upper));
            }
        }
    }
    out
}

#[test]
fn attach_reports_incremental_changes_and_reads_back() {
    let (mut engine, audio, doc) = base_engine();
    let (tier, intervals) = interval_tiers(engine.annotation(doc).unwrap()).remove(0);
    assert_eq!(intervals.len(), 1);
    assert_eq!(engine.annotation_audio(doc).unwrap(), audio);

    let boundary = match engine
        .apply(Command::InsertBoundary {
            annotation: doc,
            tier,
            at: t(1.0),
        })
        .unwrap()
    {
        Applied::BoundaryInserted { boundary, .. } => boundary,
        other => panic!("expected BoundaryInserted, got {other:?}"),
    };
    let intervals = interval_tiers(engine.annotation(doc).unwrap()).remove(0).1;
    assert_eq!(intervals.len(), 2);

    let applied = engine
        .apply(Command::SetLabel {
            annotation: doc,
            target: LabelTarget::Interval {
                tier,
                interval: intervals[0].id,
            },
            text: "aː".to_string(),
        })
        .unwrap();
    assert!(matches!(applied, Applied::LabelSet { .. }));
    let _ = boundary;
}

#[test]
fn undo_redo_restores_state_hash_against_untouched_engine() {
    let (mut engine, _audio, doc) = base_engine();
    let (mut untouched, _, _) = base_engine();
    let baseline = fingerprint(&engine);
    assert_eq!(baseline, fingerprint(&untouched));
    assert!(untouched.undo().unwrap().is_some());
    assert!(untouched.redo().unwrap().is_some());
    assert_eq!(fingerprint(&untouched), baseline);

    let (tier, intervals) = interval_tiers(engine.annotation(doc).unwrap()).remove(0);
    engine
        .apply(Command::InsertBoundary {
            annotation: doc,
            tier,
            at: t(0.5),
        })
        .unwrap();
    engine
        .apply(Command::InsertBoundary {
            annotation: doc,
            tier,
            at: t(1.5),
        })
        .unwrap();
    engine
        .apply(Command::SetLabel {
            annotation: doc,
            target: LabelTarget::Interval {
                tier,
                interval: intervals[0].id,
            },
            text: "x".to_string(),
        })
        .unwrap();
    let final_hash = fingerprint(&engine);
    assert_ne!(final_hash, baseline);

    for _ in 0..3 {
        assert!(engine.undo().unwrap().is_some());
    }
    assert_eq!(fingerprint(&engine), baseline);
    assert_eq!(fingerprint(&engine), fingerprint(&untouched));

    for _ in 0..3 {
        assert!(engine.redo().unwrap().is_some());
    }
    assert_eq!(fingerprint(&engine), final_hash);
}

#[test]
fn redo_stack_clears_on_new_command() {
    let (mut engine, _audio, doc) = base_engine();
    let tier = interval_tiers(engine.annotation(doc).unwrap()).remove(0).0;
    engine
        .apply(Command::InsertBoundary {
            annotation: doc,
            tier,
            at: t(1.0),
        })
        .unwrap();
    engine.undo().unwrap();
    assert_eq!(engine.redo_depth(), 1);
    engine
        .apply(Command::AddIntervalTier {
            annotation: doc,
            name: "words".to_string(),
            relation: TierRelation::Independent,
        })
        .unwrap();
    assert_eq!(engine.redo_depth(), 0);
    assert!(engine.redo().unwrap().is_none());
}

#[test]
fn tier_lifecycle_undo_restores_ids() {
    let (mut engine, _audio, doc) = base_engine();
    let before = fingerprint(&engine);
    let tier = match engine
        .apply(Command::AddPointTier {
            annotation: doc,
            name: "tones".to_string(),
            points: vec![(t(0.5), "H".to_string()), (t(1.5), "L".to_string())],
            relation: TierRelation::Independent,
        })
        .unwrap()
    {
        Applied::TierAdded { tier, .. } => tier,
        other => panic!("expected TierAdded, got {other:?}"),
    };
    let added = fingerprint(&engine);
    engine
        .apply(Command::RemoveTier {
            annotation: doc,
            tier,
        })
        .unwrap();
    assert_eq!(fingerprint(&engine), before);
    engine.undo().unwrap();
    assert_eq!(fingerprint(&engine), added);
    engine.undo().unwrap();
    assert_eq!(fingerprint(&engine), before);
}

#[test]
fn search_labels_spans_all_documents() {
    let (mut engine, audio, first) = base_engine();
    let (tier, intervals) = interval_tiers(engine.annotation(first).unwrap()).remove(0);
    let interval = intervals[0].id;
    engine
        .apply(Command::SetLabel {
            annotation: first,
            target: LabelTarget::Interval { tier, interval },
            text: "vowel".to_string(),
        })
        .unwrap();

    let second_annotation = {
        let mut a = annotation_with_tier(2.0);
        let (tier_id, intervals) = interval_tiers(&a).remove(0);
        a.set_label(
            LabelTarget::Interval {
                tier: tier_id,
                interval: intervals[0].id,
            },
            "vowel space",
        )
        .unwrap();
        a
    };
    let second = match engine
        .apply(Command::AttachAnnotation {
            audio,
            annotation: second_annotation,
        })
        .unwrap()
    {
        Applied::AnnotationAttached { annotation, .. } => annotation,
        other => panic!("expected AnnotationAttached, got {other:?}"),
    };

    let hits = engine.search_labels(&LabelQuery::substring("vowel"));
    assert_eq!(hits.len(), 2);
    let docs: Vec<AnnotationId> = hits.iter().map(|hit| hit.annotation).collect();
    assert!(docs.contains(&first));
    assert!(docs.contains(&second));
}

#[test]
fn random_fifty_command_undo_stack_is_hash_stable() {
    let (mut engine, audio, doc) = base_engine();
    let initial = fingerprint(&engine);

    let mut rng = Rng::new(0x9E37_79B9_7F4A_7C15);
    let mut name_counter = 0_u32;
    let mut applied_hashes = Vec::new();
    let mut guard = 0;

    while applied_hashes.len() < 50 {
        guard += 1;
        assert!(guard < 20_000, "generator failed to reach 50 commands");
        let Some(cmd) = gen_command(&engine, audio, doc, &mut rng, &mut name_counter) else {
            continue;
        };
        if engine.apply(cmd).is_ok() {
            applied_hashes.push(fingerprint(&engine));
        }
    }

    let final_hash = fingerprint(&engine);
    assert_eq!(engine.undo_depth(), 52);

    for expected in applied_hashes.iter().rev().skip(1) {
        engine.undo().unwrap();
        assert_eq!(fingerprint(&engine), *expected);
    }
    engine.undo().unwrap();
    assert_eq!(fingerprint(&engine), initial);

    for expected in &applied_hashes {
        engine.redo().unwrap();
        assert_eq!(fingerprint(&engine), *expected);
    }
    assert_eq!(fingerprint(&engine), final_hash);
}

fn gen_command(
    engine: &Session<String>,
    audio: AudioId,
    doc: AnnotationId,
    rng: &mut Rng,
    name_counter: &mut u32,
) -> Option<Command<String>> {
    let annotation = engine.annotation(doc).ok()?;
    let tiers = interval_tiers(annotation);
    let roll = rng.below(100);

    match roll {
        0..=39 => {
            if tiers.is_empty() {
                return None;
            }
            let (tier, intervals) = &tiers[rng.below(tiers.len())];
            let interval = &intervals[rng.below(intervals.len())];
            let text = format!("l{}", rng.below(1000));
            Some(Command::SetLabel {
                annotation: doc,
                target: LabelTarget::Interval {
                    tier: *tier,
                    interval: interval.id,
                },
                text,
            })
        }
        40..=57 => {
            let wide: Vec<&(TierId, Vec<Interval>)> = tiers
                .iter()
                .filter(|(_, ivs)| ivs.iter().any(|iv| f(iv.xmax) - f(iv.xmin) > 1.0e-3))
                .collect();
            if wide.is_empty() {
                return None;
            }
            let (tier, intervals) = wide[rng.below(wide.len())];
            let candidates: Vec<&Interval> = intervals
                .iter()
                .filter(|iv| f(iv.xmax) - f(iv.xmin) > 1.0e-3)
                .collect();
            let interval = candidates[rng.below(candidates.len())];
            let frac = 0.2 + 0.6 * rng.frac();
            let (lo, hi) = (f(interval.xmin), f(interval.xmax));
            let at = lo + frac * (hi - lo);
            if at.to_bits() == lo.to_bits() || at.to_bits() == hi.to_bits() {
                return None;
            }
            Some(Command::InsertBoundary {
                annotation: doc,
                tier: *tier,
                at: t(at),
            })
        }
        58..=69 => {
            let (_tier, intervals) = pick_multi_interval(&tiers, rng)?;
            let i = rng.below(intervals.len() - 1);
            let lo = f(intervals[i].xmin);
            let hi = f(intervals[i + 1].xmax);
            let frac = 0.2 + 0.6 * rng.frac();
            let at = lo + frac * (hi - lo);
            if at.to_bits() == f(intervals[i].xmax).to_bits() {
                return None;
            }
            Some(Command::MoveBoundary {
                annotation: doc,
                boundary: intervals[i].end_boundary,
                to: t(at),
                mode: AlignMode::Linked,
            })
        }
        70..=77 => {
            let (_tier, intervals) = pick_multi_interval(&tiers, rng)?;
            let i = rng.below(intervals.len() - 1);
            Some(Command::RemoveBoundary {
                annotation: doc,
                boundary: intervals[i].end_boundary,
            })
        }
        78..=82 => {
            *name_counter += 1;
            Some(Command::AddIntervalTier {
                annotation: doc,
                name: format!("tier{name_counter}"),
                relation: TierRelation::Independent,
            })
        }
        83..=85 => {
            if annotation.tiers().len() < 2 {
                return None;
            }
            let slot = &annotation.tiers()[1 + rng.below(annotation.tiers().len() - 1)];
            Some(Command::RemoveTier {
                annotation: doc,
                tier: slot.id,
            })
        }
        86..=88 => {
            *name_counter += 1;
            Some(Command::AddPointTier {
                annotation: doc,
                name: format!("pts{name_counter}"),
                points: vec![(t(0.4), "a".to_string()), (t(1.2), "b".to_string())],
                relation: TierRelation::Independent,
            })
        }
        89..=91 => {
            let point_tiers = point_tiers(annotation);
            if point_tiers.is_empty() {
                return None;
            }
            let (tier, points) = &point_tiers[rng.below(point_tiers.len())];
            let mut fence = vec![f(annotation.xmin())];
            fence.extend(points.iter().map(|point| f(point.time)));
            fence.push(f(annotation.xmax()));
            let mids: Vec<f64> = fence
                .windows(2)
                .filter_map(|pair| {
                    let mid = (pair[0] + pair[1]) / 2.0;
                    if mid.to_bits() != pair[0].to_bits() && mid.to_bits() != pair[1].to_bits() {
                        Some(mid)
                    } else {
                        None
                    }
                })
                .collect();
            if mids.is_empty() {
                return None;
            }
            Some(Command::InsertPoint {
                annotation: doc,
                tier: *tier,
                time: t(mids[rng.below(mids.len())]),
                label: format!("p{}", rng.below(1000)),
            })
        }
        92..=93 => {
            let movable = movable_points(annotation);
            if movable.is_empty() {
                return None;
            }
            let (point, lower, upper) = movable[rng.below(movable.len())];
            let frac = 0.2 + 0.6 * rng.frac();
            let to = lower + frac * (upper - lower);
            if to.to_bits() == lower.to_bits() || to.to_bits() == upper.to_bits() {
                return None;
            }
            Some(Command::MovePoint {
                annotation: doc,
                point,
                to: t(to),
            })
        }
        94..=95 => {
            let ids: Vec<PointId> = point_tiers(annotation)
                .into_iter()
                .flat_map(|(_tier, points)| points.into_iter().map(|point| point.id))
                .collect();
            if ids.is_empty() {
                return None;
            }
            Some(Command::RemovePoint {
                annotation: doc,
                point: ids[rng.below(ids.len())],
            })
        }
        96..=97 => {
            let count = annotation.tiers().len();
            if count < 2 {
                return None;
            }
            let tier = annotation.tiers()[rng.below(count)].id;
            Some(Command::ReorderTier {
                annotation: doc,
                tier,
                to_index: rng.below(count),
            })
        }
        98 => Some(Command::AttachAnnotation {
            audio,
            annotation: annotation_with_tier(2.0),
        }),
        _ => Some(Command::ImportAudio {
            audio: format!("clip{name_counter}"),
        }),
    }
}

fn pick_multi_interval<'a>(
    tiers: &'a [(TierId, Vec<Interval>)],
    rng: &mut Rng,
) -> Option<(TierId, &'a Vec<Interval>)> {
    let multi: Vec<&(TierId, Vec<Interval>)> =
        tiers.iter().filter(|(_, ivs)| ivs.len() >= 2).collect();
    if multi.is_empty() {
        return None;
    }
    let (tier, intervals) = multi[rng.below(multi.len())];
    Some((*tier, intervals))
}

#[test]
fn aligned_tier_pair_moves_and_undoes_as_one_entry() {
    let (mut engine, _audio, doc) = base_engine();
    let primary = interval_tiers(engine.annotation(doc).unwrap()).remove(0).0;

    let aligned = match engine
        .apply(Command::AddIntervalTier {
            annotation: doc,
            name: "words".to_string(),
            relation: TierRelation::AlignedBoundaries { with: primary },
        })
        .unwrap()
    {
        Applied::TierAdded { tier, .. } => tier,
        other => panic!("expected TierAdded, got {other:?}"),
    };

    let with_pair = fingerprint(&engine);
    engine.undo().unwrap();
    assert!(engine.annotation(doc).unwrap().tier(aligned).is_none());
    engine.redo().unwrap();
    assert_eq!(fingerprint(&engine), with_pair);

    let depth_before = engine.undo_depth();
    let boundary = match engine
        .apply(Command::InsertBoundary {
            annotation: doc,
            tier: primary,
            at: t(1.0),
        })
        .unwrap()
    {
        Applied::BoundaryInserted { boundary, .. } => boundary,
        other => panic!("expected BoundaryInserted, got {other:?}"),
    };
    assert_eq!(engine.undo_depth(), depth_before + 1);
    for (_id, intervals) in interval_tiers(engine.annotation(doc).unwrap()) {
        assert_eq!(intervals.len(), 2, "both tiers gained the boundary");
    }

    let before_move = fingerprint(&engine);
    let moves = match engine
        .apply(Command::MoveBoundary {
            annotation: doc,
            boundary,
            to: t(1.3),
            mode: AlignMode::Linked,
        })
        .unwrap()
    {
        Applied::BoundaryMoved { moves, .. } => moves,
        other => panic!("expected BoundaryMoved, got {other:?}"),
    };
    assert_eq!(moves.len(), 2, "both aligned tiers moved");
    for (_id, intervals) in interval_tiers(engine.annotation(doc).unwrap()) {
        assert_eq!(intervals[0].xmax.to_bits(), 1.3_f64.to_bits());
    }

    engine.undo().unwrap();
    assert_eq!(fingerprint(&engine), before_move);
    for (_id, intervals) in interval_tiers(engine.annotation(doc).unwrap()) {
        assert_eq!(intervals[0].xmax.to_bits(), 1.0_f64.to_bits());
    }
}

#[test]
fn point_commands_undo_redo_are_hash_stable() {
    let (mut engine, _audio, doc) = base_engine();
    let tier = match engine
        .apply(Command::AddPointTier {
            annotation: doc,
            name: "tones".to_string(),
            points: Vec::new(),
            relation: TierRelation::Independent,
        })
        .unwrap()
    {
        Applied::TierAdded { tier, .. } => tier,
        other => panic!("expected TierAdded, got {other:?}"),
    };
    let empty = fingerprint(&engine);

    let point = match engine
        .apply(Command::InsertPoint {
            annotation: doc,
            tier,
            time: t(1.0),
            label: "H".to_string(),
        })
        .unwrap()
    {
        Applied::PointInserted { point, .. } => point,
        other => panic!("expected PointInserted, got {other:?}"),
    };
    let inserted = fingerprint(&engine);

    engine
        .apply(Command::MovePoint {
            annotation: doc,
            point,
            to: t(1.4),
        })
        .unwrap();
    let moved = fingerprint(&engine);
    assert_ne!(moved, inserted);

    engine
        .apply(Command::RemovePoint {
            annotation: doc,
            point,
        })
        .unwrap();
    assert_eq!(fingerprint(&engine), empty, "removal returns to the empty tier");

    engine.undo().unwrap();
    assert_eq!(fingerprint(&engine), moved);
    engine.undo().unwrap();
    assert_eq!(fingerprint(&engine), inserted);
    engine.undo().unwrap();
    assert_eq!(fingerprint(&engine), empty);

    engine.redo().unwrap();
    assert_eq!(fingerprint(&engine), inserted);
    engine.redo().unwrap();
    assert_eq!(fingerprint(&engine), moved);
    engine.redo().unwrap();
    assert_eq!(fingerprint(&engine), empty);
}

#[test]
fn reorder_tier_undo_restores_order() {
    let (mut engine, _audio, doc) = base_engine();
    engine
        .apply(Command::AddIntervalTier {
            annotation: doc,
            name: "words".to_string(),
            relation: TierRelation::Independent,
        })
        .unwrap();
    let order_before: Vec<TierId> = engine
        .annotation(doc)
        .unwrap()
        .tiers()
        .iter()
        .map(|slot| slot.id)
        .collect();
    let hash_before = fingerprint(&engine);

    let last = *order_before.last().unwrap();
    engine
        .apply(Command::ReorderTier {
            annotation: doc,
            tier: last,
            to_index: 0,
        })
        .unwrap();
    let reordered: Vec<TierId> = engine
        .annotation(doc)
        .unwrap()
        .tiers()
        .iter()
        .map(|slot| slot.id)
        .collect();
    assert_eq!(reordered[0], last);
    assert_ne!(fingerprint(&engine), hash_before);

    engine.undo().unwrap();
    assert_eq!(fingerprint(&engine), hash_before);
    let restored: Vec<TierId> = engine
        .annotation(doc)
        .unwrap()
        .tiers()
        .iter()
        .map(|slot| slot.id)
        .collect();
    assert_eq!(restored, order_before);
}

#[test]
fn fresh_session_refuses_attach_to_unknown_audio() {
    let mut engine: Session<String> = Session::new();
    let before = fingerprint(&engine);
    let result = engine.apply(Command::AttachAnnotation {
        audio: AudioId(0),
        annotation: Annotation::new(t(0.0), t(1.0)).unwrap(),
    });
    assert!(matches!(result, Err(EngineError::UnknownAudioId(AudioId(0)))));
    assert!(engine.annotation_ids().is_empty());
    assert_eq!(engine.undo_depth(), 0);
    assert_eq!(fingerprint(&engine), before);
}

#[test]
fn attach_of_invalid_annotation_reports_its_validation_list() {
    let (mut engine, audio, _) = base_engine();
    let before = fingerprint(&engine);
    let depth = engine.undo_depth();
    let annotation = Annotation::from_raw(t(1.0), t(0.0), Vec::new());
    let expected = annotation.validate();
    assert_eq!(
        expected,
        vec![IntegrityIssue::InvalidTimeDomain { xmin: t(1.0), xmax: t(0.0) }]
    );
    let result = engine.apply(Command::AttachAnnotation { audio, annotation });
    match result {
        Err(EngineError::InvalidAnnotation(issues)) => assert_eq!(issues, expected),
        other => panic!("expected InvalidAnnotation, got {other:?}"),
    }
    assert_eq!(engine.undo_depth(), depth);
    assert_eq!(fingerprint(&engine), before);
}

#[test]
fn redo_of_an_undone_import_reinstates_the_same_audio() {
    let mut engine: Session<String> = Session::new();
    let audio = match engine
        .apply(Command::ImportAudio {
            audio: "take one".to_string(),
        })
        .unwrap()
    {
        Applied::AudioImported { audio } => audio,
        other => panic!("expected AudioImported, got {other:?}"),
    };
    assert!(engine.undo().unwrap().is_some());
    assert!(engine.audio_entry(audio).is_none());
    assert!(engine.redo().unwrap().is_some());
    assert_eq!(engine.audio_entry(audio), Some(&"take one".to_string()));
}
