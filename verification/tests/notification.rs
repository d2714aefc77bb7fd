use ratatui::text::Text;
use rooibos::notification::{Notification, NotificationIds, NotificationList};

fn ids_of(list: &NotificationList) -> Vec<u32> {
    let mut out = Vec::new();
    for i in 0..list.len() {
        out.push(list.get(i).id());
    }
    out
}

#[test]
fn notifications_are_numbered_in_order() {
    let mut ids = NotificationIds::new();
    let a = Notification::new(&mut ids, Text::from("a"));
    let b = Notification::new(&mut ids, Text::from("b"));
    assert_eq!(a.id(), 1);
    assert_eq!(b.id(), 2);
    assert_eq!(ids.next, 3);
    assert_eq!(*b.content(), Text::from("b"));
}

#[test]
fn the_counter_wraps_around() {
    let mut ids = NotificationIds { next: u32::MAX };
    let a = Notification::new(&mut ids, Text::from("a"));
    assert_eq!(a.id(), u32::MAX);
    assert_eq!(ids.next, 0);
}

#[test]
fn received_notifications_stay_until_their_time_is_up() {
    let mut ids = NotificationIds::new();
    let mut list = NotificationList::new();
    assert_eq!(list.len(), 0);
    let first = list.receive(Notification::new(&mut ids, Text::from("one")));
    assert_eq!(first, (1, 3000));
    let second = list.receive(Notification::new(&mut ids, Text::from("two")).timeout(500));
    assert_eq!(second, (2, 500));
    list.receive(Notification::new(&mut ids, Text::from("three")));
    assert_eq!(ids_of(&list), vec![1, 2, 3]);
    list.expire(2);
    assert_eq!(ids_of(&list), vec![1, 3]);
    assert_eq!(*list.get(1).content(), Text::from("three"));
    list.expire(7);
    assert_eq!(ids_of(&list), vec![1, 3]);
    list.expire(1);
    list.expire(3);
    assert_eq!(list.len(), 0);
}

#[test]
fn expiring_a_repeated_number_takes_the_oldest() {
    let mut ids = NotificationIds::new();
    let mut list = NotificationList::new();
    list.receive(Notification::new(&mut ids, Text::from("old")));
    let mut again = NotificationIds::new();
    list.receive(Notification::new(&mut again, Text::from("new")));
    list.expire(1);
    assert_eq!(list.len(), 1);
    assert_eq!(*list.get(0).content(), Text::from("new"));
}

#[test]
fn a_notification_that_expires_leaves_the_list_as_before() {
    let mut ids = NotificationIds::new();
    let mut list = NotificationList::new();
    list.receive(Notification::new(&mut ids, Text::from("a")));
    list.receive(Notification::new(&mut ids, Text::from("b")));
    let before = ids_of(&list);
    let (id, _) = list.receive(Notification::new(&mut ids, Text::from("c")));
    list.expire(id);
    assert_eq!(ids_of(&list), before);
}

#[test]
fn each_received_notification_keeps_its_own_text() {
    let mut ids = NotificationIds::new();
    let mut list = NotificationList::new();
    list.receive(Notification::new(&mut ids, Text::from("one")));
    list.receive(Notification::new(&mut ids, Text::from("two")).timeout(10));
    assert_eq!(list.get(0).id(), 1);
    assert_eq!(*list.get(0).content(), Text::from("one"));
    assert_eq!(list.get(1).id(), 2);
    assert_eq!(*list.get(1).content(), Text::from("two"));
}
