use runic::heap::inbox::{Inbox, Link};
use runic::heap::list::List;
use runic::heap::run::freelist::{Freelist, FreelistError, Words};

#[test]
fn push_then_drain() {
    let mut list = List::new();
    list.push(7);
    assert_eq!(list.drain(), [7]);
    assert!(list.is_empty());
}

#[test]
fn drain_is_newest_first() {
    let mut list = List::new();
    let older = 1;
    let newer = 2;
    list.push(older);
    list.push(newer);
    assert_eq!(list.drain(), [newer, older]);
}

#[test]
fn drain_empty_yields_nothing() {
    let mut list: List<u32> = List::new();
    assert_eq!(list.drain().len(), 0);
}

#[test]
fn queue_pushes_once_until_cleared() {
    let mut inbox = Inbox::new();
    let mut link = Link::new();
    let node = 5;
    assert!(inbox.queue(&mut link, node));
    assert!(!inbox.queue(&mut link, node));
    assert!(!inbox.queue(&mut link, node));
    assert_eq!(inbox.drain().len(), 1);
    assert!(inbox.is_empty());
}

#[test]
fn queue_after_clear_pushes_again() {
    let mut inbox = Inbox::new();
    let mut link = Link::new();
    let node = 5;
    assert!(inbox.queue(&mut link, node));
    assert_eq!(inbox.drain().len(), 1);

    link.clear_queued();
    assert!(inbox.queue(&mut link, node));
    assert_eq!(inbox.drain().len(), 1);
}

#[test]
fn push_then_pop_is_lifo() {
    let first = 0x1000;
    let second = 0x1008;
    let mut words = Words::new();
    let mut list = Freelist::new();

    assert!(list.pop(&words).is_none());
    list.push(&mut words, first);
    list.push(&mut words, second);
    assert_eq!(list.pop(&words), Some(second));
    assert_eq!(list.pop(&words), Some(first));
    assert!(list.pop(&words).is_none());
}

#[test]
fn push_contiguous_links_low_to_high_then_the_old_head() {
    let fresh_addrs = [0x2000, 0x2008, 0x2010];
    let old_addr = 0x1000;
    let mut words = Words::new();
    let mut list = Freelist::new();

    list.push(&mut words, old_addr);
    list.push_contiguous(&mut words, fresh_addrs[0], 3, 8);
    assert_eq!(list.pop(&words), Some(fresh_addrs[0]));
    assert_eq!(list.pop(&words), Some(fresh_addrs[1]));
    assert_eq!(list.pop(&words), Some(fresh_addrs[2]));
    assert_eq!(list.pop(&words), Some(old_addr));
    assert!(list.pop(&words).is_none());
}

#[test]
fn clear_drops_the_head() {
    let mut words = Words::new();
    let mut list = Freelist::new();
    list.push(&mut words, 0x1000);
    list.clear();
    assert!(list.pop(&words).is_none());
}

#[test]
fn ensure_absent_walks_only_words_that_look_like_links() {
    let listed = 0x1000;
    let live = 0x2000;
    let mut words = Words::new();
    words.write(live, 1);
    let mut list = Freelist::new();
    let is_block = |addr: usize| addr == listed || addr == live;

    list.push(&mut words, listed);
    assert_eq!(
        list.ensure_absent(&words, listed, 2, is_block),
        Err(FreelistError::Listed)
    );

    assert_eq!(words.read(live), 1);
    assert_eq!(list.ensure_absent(&words, live, 2, is_block), Ok(()));

    words.write(live, 0);
    assert_eq!(list.ensure_absent(&words, live, 2, is_block), Ok(()));
    assert_eq!(words.read(live), 0);
    assert_eq!(
        list.ensure_absent(&words, live, 0, is_block),
        Err(FreelistError::Corrupt)
    );
}
