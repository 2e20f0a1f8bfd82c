use happy_synth::note::{Note, NoteList};

fn note(freq: u64) -> Note<i64> {
    Note { freq, amp: 1_000_000, time: 0, held: true, state: 0 }
}

#[test]
fn eviction_ordering() {
    // capacity 2: start A, B, C; A is evicted, B and C remain
    let mut list: NoteList<i64> = NoteList::new(2);
    let a = list.add(note(100));
    let b = list.add(note(200));
    let c = list.add(note(300));
    assert_eq!(list.len(), 2);
    assert!(list.get_mut(a).is_none());
    assert_eq!(list.get_mut(b).unwrap().freq, 200);
    assert_eq!(list.get_mut(c).unwrap().freq, 300);
}

#[test]
fn capacity_never_exceeded() {
    let mut list: NoteList<i64> = NoteList::new(3);
    for i in 0..50 {
        list.add(note(i));
        assert!(list.len() <= 3);
    }
    assert_eq!(list.len(), 3);
}

#[test]
fn survivors_are_most_recent() {
    let mut list: NoteList<i64> = NoteList::new(3);
    let mut ids = Vec::new();
    for i in 0..10u64 {
        ids.push(list.add(note(i)));
    }
    for (i, id) in ids.iter().enumerate() {
        let hit = list.get_mut(*id);
        if i < 7 {
            assert!(hit.is_none());
        } else {
            assert_eq!(hit.unwrap().freq, i as u64);
        }
    }
}

#[test]
fn stale_identity_never_aliases() {
    // many insert/evict cycles reusing storage slots: an old identity must
    // resolve to "not found", never to another note's data
    let mut list: NoteList<i64> = NoteList::new(2);
    let first = list.add(note(1));
    list.add(note(2));
    assert_eq!(list.get_mut(first).unwrap().freq, 1);
    for i in 3..100u64 {
        list.add(note(i));
        assert!(list.get_mut(first).is_none());
    }
}

#[test]
fn remove_is_idempotent() {
    let mut list: NoteList<i64> = NoteList::new(2);
    let a = list.add(note(1));
    let b = list.add(note(2));
    list.remove(a);
    assert!(list.get_mut(a).is_none());
    assert_eq!(list.len(), 1);
    list.remove(a);
    assert_eq!(list.len(), 1);
    assert_eq!(list.get_mut(b).unwrap().freq, 2);
}

#[test]
fn removal_frees_room_without_eviction() {
    let mut list: NoteList<i64> = NoteList::new(2);
    let a = list.add(note(1));
    let b = list.add(note(2));
    list.remove(a);
    let c = list.add(note(3));
    // b was older than c but must survive: the container was not full
    assert_eq!(list.get_mut(b).unwrap().freq, 2);
    assert_eq!(list.get_mut(c).unwrap().freq, 3);
    assert_eq!(list.len(), 2);
}

#[test]
fn filter_keeps_matching_notes_in_order() {
    let mut list: NoteList<i64> = NoteList::new(8);
    for i in 0..8u64 {
        list.add(note(i));
    }
    list.filter(|n: &Note<i64>| n.freq % 2 == 0);
    assert_eq!(list.len(), 4);
    // walk in insertion order: 0, 2, 4, 6
    let mut cur = list.first();
    let mut seen = Vec::new();
    while let Some(id) = cur {
        cur = list.next_of(id);
        seen.push(list.get_mut(id).unwrap().freq);
    }
    assert_eq!(seen, vec![0, 2, 4, 6]);
}

#[test]
fn get_mut_edits_are_visible() {
    let mut list: NoteList<i64> = NoteList::new(2);
    let a = list.add(note(1));
    {
        let n = list.get_mut(a).unwrap();
        n.held = false;
        n.time = 42;
    }
    let n = list.get_mut(a).unwrap();
    assert!(!n.held);
    assert_eq!(n.time, 42);
}

#[test]
fn notes_mut_visits_every_live_note_once() {
    let mut list: NoteList<i64> = NoteList::new(4);
    for i in 0..4u64 {
        list.add(note(i));
    }
    let mut freqs = Vec::new();
    for k in 0..4 {
        if let Some(n) = list.notes_mut(k) {
            freqs.push(n.freq);
        }
    }
    freqs.sort();
    assert_eq!(freqs, vec![0, 1, 2, 3]);
}
