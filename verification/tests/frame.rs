use std::collections::HashMap;

use servo_session::frame::{Frame, FrameTreeIterator, FullFrameTreeIterator, HistoryEntry};
use servo_session::ids::{FrameId, PipelineId};
use servo_session::pipeline::Pipeline;
use servo_session::servo_url::ServoUrl;

fn url(s: &str) -> ServoUrl {
    ServoUrl::parse(s).expect("a valid URL")
}

fn fid(i: u32) -> FrameId {
    FrameId { namespace_id: 1, index: i }
}

fn pid(i: u32) -> PipelineId {
    PipelineId { namespace_id: 1, index: i }
}

fn three_loads() -> Frame {
    let mut f = Frame::new(fid(1), pid(1), url("http://a.example/"), 10);
    f.load(pid(2), url("http://b.example/"), 20);
    f.load(pid(3), url("http://c.example/"), 30);
    f
}

fn summary(entries: &[HistoryEntry]) -> Vec<(Option<PipelineId>, u64, String)> {
    entries.iter().map(|e| (e.pipeline_id, e.instant, e.url.as_str().to_owned())).collect()
}

#[test]
fn new_frame_has_one_entry() {
    let f = Frame::new(fid(1), pid(1), url("http://a.example/"), 10);
    assert_eq!(f.instant(), 10);
    let c = f.current();
    assert_eq!(c.pipeline_id, Some(pid(1)));
    assert_eq!(c.frame_id, fid(1));
    assert_eq!(c.instant, 10);
    assert_eq!(c.url.as_str(), "http://a.example/");
    assert!(f.past_iter().is_empty());
    assert!(f.future_iter().is_empty());
    assert!(f.past.is_empty() && f.future.is_empty());
}

#[test]
fn load_pushes_current_into_past() {
    let f = three_loads();
    assert_eq!(f.instant(), 30);
    assert_eq!(f.pipeline_id, pid(3));
    assert_eq!(f.current().url.as_str(), "http://c.example/");
    assert_eq!(f.past.len(), 2);
    assert_eq!(f.past[0].pipeline_id, Some(pid(1)));
    assert_eq!(f.past[1].pipeline_id, Some(pid(2)));
    assert_eq!(
        summary(&f.past_iter()),
        vec![
            (Some(pid(2)), 20, "http://b.example/".to_owned()),
            (Some(pid(1)), 10, "http://a.example/".to_owned()),
        ]
    );
    assert!(f.future_iter().is_empty());
}

#[test]
fn traverse_back_then_forward() {
    let mut f = three_loads();
    let first = f.past_iter().pop().unwrap();
    assert_eq!(first.instant, 10);
    f.traverse_to_entry(first, pid(7));
    assert_eq!(f.instant(), 10);
    assert_eq!(f.pipeline_id, pid(7));
    assert_eq!(f.current().url.as_str(), "http://a.example/");
    assert!(f.past_iter().is_empty());
    assert_eq!(
        summary(&f.future_iter()),
        vec![
            (Some(pid(3)), 30, "http://c.example/".to_owned()),
            (Some(pid(2)), 20, "http://b.example/".to_owned()),
        ]
    );
    let second = f.future_iter().pop().unwrap();
    f.traverse_to_entry(second, pid(8));
    assert_eq!(f.instant(), 20);
    assert_eq!(f.pipeline_id, pid(8));
    assert_eq!(
        summary(&f.past_iter()),
        vec![(Some(pid(7)), 10, "http://a.example/".to_owned())]
    );
    assert_eq!(
        summary(&f.future_iter()),
        vec![(Some(pid(3)), 30, "http://c.example/".to_owned())]
    );
}

#[test]
fn traverse_to_current_only_sets_pipeline() {
    let mut f = three_loads();
    let cur = f.current();
    f.traverse_to_entry(cur, pid(9));
    assert_eq!(f.instant(), 30);
    assert_eq!(f.pipeline_id, pid(9));
    assert_eq!(f.past.len(), 2);
    assert!(f.future.is_empty());
}

#[test]
fn remove_forward_entries_empties_future() {
    let mut f = three_loads();
    let first = f.past_iter().pop().unwrap();
    f.traverse_to_entry(first, pid(1));
    let removed = f.remove_forward_entries();
    assert_eq!(removed.len(), 2);
    assert_eq!(removed[0].pipeline_id, Some(pid(3)));
    assert_eq!(removed[1].pipeline_id, Some(pid(2)));
    assert!(f.future.is_empty());
    assert!(f.future_iter().is_empty());
    f.load(pid(4), url("http://d.example/"), 40);
    assert_eq!(f.instant(), 40);
    assert_eq!(
        summary(&f.past_iter()),
        vec![(Some(pid(1)), 10, "http://a.example/".to_owned())]
    );
}

#[test]
fn discarded_pipeline_shows_in_entries() {
    let mut f = three_loads();
    f.past[0].pipeline_id = None;
    let past = f.past_iter();
    assert_eq!(past[1].pipeline_id, None);
    assert_eq!(past[1].frame_id, fid(1));
}

#[test]
fn frame_ids_have_distinct_keys() {
    assert_eq!(fid(5).key(), (1u64 << 32) | 5);
    assert_ne!(FrameId { namespace_id: 0, index: 1 }.key(), FrameId { namespace_id: 1, index: 0 }.key());
    assert_eq!(pid(2).key(), (1u64 << 32) | 2);
}

fn tree() -> (HashMap<u64, Frame>, HashMap<u64, Pipeline>) {
    // Frame 1 (pipeline 1) embeds frames 2 and 3; frame 2 was at pipeline 5
    // before, which embedded frame 4; frame 2 is now at pipeline 2.
    let mut frames = HashMap::new();
    frames.insert(fid(1).key(), Frame::new(fid(1), pid(1), url("http://top.example/"), 1));
    let mut f2 = Frame::new(fid(2), pid(5), url("http://old.example/"), 2);
    f2.load(pid(2), url("http://new.example/"), 3);
    frames.insert(fid(2).key(), f2);
    frames.insert(fid(3).key(), Frame::new(fid(3), pid(3), url("http://three.example/"), 4));
    frames.insert(fid(4).key(), Frame::new(fid(4), pid(4), url("http://four.example/"), 5));
    let mut pipelines = HashMap::new();
    pipelines.insert(pid(1).key(), Pipeline { id: pid(1), children: vec![fid(2), fid(3)] });
    pipelines.insert(pid(2).key(), Pipeline { id: pid(2), children: vec![] });
    pipelines.insert(pid(3).key(), Pipeline { id: pid(3), children: vec![] });
    pipelines.insert(pid(4).key(), Pipeline { id: pid(4), children: vec![] });
    pipelines.insert(pid(5).key(), Pipeline { id: pid(5), children: vec![fid(4)] });
    (frames, pipelines)
}

#[test]
fn active_frame_tree_in_depth_first_order() {
    let (frames, pipelines) = tree();
    let mut it = FrameTreeIterator { stack: vec![fid(1)], frames: &frames, pipelines: &pipelines };
    let mut seen = vec![];
    while let Some(f) = it.next() {
        seen.push(f.id);
    }
    assert_eq!(seen, vec![fid(1), fid(3), fid(2)]);
    assert!(it.stack.is_empty());
}

#[test]
fn full_frame_tree_includes_history() {
    let (frames, pipelines) = tree();
    let mut it = FullFrameTreeIterator { stack: vec![fid(1)], frames: &frames, pipelines: &pipelines };
    let mut seen = vec![];
    while let Some(f) = it.next() {
        seen.push(f.id);
    }
    assert_eq!(seen, vec![fid(1), fid(3), fid(2), fid(4)]);
}

#[test]
fn closed_frames_and_pipelines_are_skipped() {
    let (mut frames, mut pipelines) = tree();
    frames.remove(&fid(3).key());
    pipelines.remove(&pid(2).key());
    let mut it = FrameTreeIterator { stack: vec![fid(1)], frames: &frames, pipelines: &pipelines };
    let first = it.next().unwrap();
    assert_eq!(first.id, fid(1));
    assert_eq!(it.stack, vec![fid(2), fid(3)]);
    assert!(it.next().is_none());
    assert!(it.stack.is_empty());
    let mut full = FullFrameTreeIterator { stack: vec![fid(3), fid(2)], frames: &frames, pipelines: &pipelines };
    assert_eq!(full.next().unwrap().id, fid(2));
    assert_eq!(full.stack, vec![fid(3), fid(4)]);
}

#[test]
fn load_then_traverse_back_keeps_loaded_group_as_future() {
    let mut f = Frame::new(fid(1), pid(1), url("http://a.example/"), 10);
    f.load(pid(2), url("http://b.example/"), 20);
    let before = f.current();
    f.load(pid(3), url("http://c.example/"), 30);
    f.traverse_to_entry(before.clone(), pid(2));
    assert_eq!(f.instant(), 20);
    assert_eq!(f.current().url.as_str(), "http://b.example/");
    assert_eq!(f.future.len(), 1);
    assert_eq!(f.future[0].pipeline_id, Some(pid(3)));
    assert_eq!(f.future[0].frame_id, fid(1));
    assert_eq!(
        summary(&f.future_iter()),
        vec![(Some(pid(3)), 30, "http://c.example/".to_owned())]
    );
    assert_eq!(f.past.len(), 1);
    assert_eq!(f.past[0].pipeline_id, Some(pid(1)));
}

#[test]
fn past_entries_precede_and_future_entries_follow_current() {
    let mut f = three_loads();
    let middle = f.past_iter()[0].clone();
    f.traverse_to_entry(middle, pid(2));
    let cur = f.instant();
    assert!(f.past_iter().iter().all(|e| e.instant < cur));
    assert!(f.future_iter().iter().all(|e| e.instant > cur));
    assert_eq!(f.past_iter().len() + 1 + f.future_iter().len(), 3);
}
