use vstd::prelude::*;

use ratatui::text::Text;

verus! {

#[verifier::external_type_specification]
#[verifier::external_body]
pub struct ExText<'a>(Text<'a>);

/// The counter that numbers notifications, wrapping around after `u32::MAX`.
#[derive(Debug)]
pub struct NotificationIds {
    pub next: u32,
}

impl NotificationIds {
    /// A counter whose first number is 1.
    pub fn new() -> (r: NotificationIds)
        ensures
            r.next == 1,
    {
        NotificationIds { next: 1 }
    }
}

/// A message shown for a while: its number, its text and for how many milliseconds it stays.
#[derive(Debug)]
pub struct Notification {
    id: u32,
    content: Text<'static>,
    timeout_ms: u64,
}

impl Notification {
    /// The number of the notification.
    pub closed spec fn spec_id(&self) -> u32 {
        self.id
    }

    /// The text of the notification.
    pub closed spec fn spec_content(&self) -> Text<'static> {
        self.content
    }

    /// How many milliseconds the notification stays.
    pub closed spec fn spec_timeout_ms(&self) -> u64 {
        self.timeout_ms
    }

    /// A notification showing `content` for three seconds, numbered by `ids`, which moves on.
    pub fn new(ids: &mut NotificationIds, content: Text<'static>) -> (r: Notification)
        ensures
            r.spec_id() == old(ids).next,
            r.spec_content() == content,
            r.spec_timeout_ms() == 3000,
            final(ids).next == old(ids).next.wrapping_add(1),
    {
        let id = ids.next;
        ids.next = ids.next.wrapping_add(1);
        Notification { id, content, timeout_ms: 3000 }
    }

    /// The same notification, shown for `timeout_ms` milliseconds.
    pub fn timeout(self, timeout_ms: u64) -> (r: Notification)
        ensures
            r.spec_id() == self.spec_id(),
            r.spec_content() == self.spec_content(),
            r.spec_timeout_ms() == timeout_ms,
    {
        Notification { timeout_ms, ..self }
    }

    /// The number of the notification.
    pub fn id(&self) -> (r: u32)
        ensures
            r == self.spec_id(),
    {
        self.id
    }

    /// The text of the notification.
    pub fn content(&self) -> (r: &Text<'static>)
        ensures
            *r == self.spec_content(),
    {
        &self.content
    }
}

/// The notifications on screen, oldest first.
pub struct NotificationList {
    items: Vec<Notification>,
}

/// `s` without its first notification numbered `id`; `s` itself when there is none.
pub open spec fn without_first(s: Seq<Notification>, id: u32) -> Seq<Notification>
    decreases s.len(),
{
    if s.len() == 0 {
        s
    } else if s[0].spec_id() == id {
        s.drop_first()
    } else {
        seq![s[0]] + without_first(s.drop_first(), id)
    }
}

impl NotificationList {
    /// The notifications on screen, oldest first.
    pub closed spec fn items(&self) -> Seq<Notification> {
        self.items@
    }

    /// No notification on screen.
    pub fn new() -> (r: NotificationList)
        ensures
            r.items() == Seq::<Notification>::empty(),
    {
        NotificationList { items: Vec::new() }
    }

    /// Shows `notification` after the others, and gives its number and how many
    /// milliseconds it stays, for the timer that will take it away.
    pub fn receive(&mut self, notification: Notification) -> (r: (u32, u64))
        ensures
            r == (notification.spec_id(), notification.spec_timeout_ms()),
            final(self).items() == old(self).items().push(notification),
    {
        let id = notification.id;
        let timeout = notification.timeout_ms;
        self.items.push(notification);
        (id, timeout)
    }

    /// Takes away the oldest notification numbered `id`, once its time is up; nothing
    /// changes when none is on screen.
    pub fn expire(&mut self, id: u32)
        ensures
            final(self).items() == without_first(old(self).items(), id),
    {
        let mut i: usize = 0;
        while i < self.items.len()
            invariant
                self.items@ == old(self).items@,
                i <= self.items@.len(),
                forall|j: int| 0 <= j < i ==> #[trigger] self.items@[j].spec_id() != id,
            decreases self.items@.len() - i,
        {
            if self.items[i].id == id {
                let ghost before = self.items@;
                self.items.remove(i);
                proof {
                    lemma_without_first_at(before, id, i as int);
                }
                return;
            }
            i = i + 1;
        }
        proof {
            lemma_without_first_absent(self.items@, id);
        }
    }

    /// How many notifications are on screen.
    pub fn len(&self) -> (r: usize)
        ensures
            r == self.items().len(),
    {
        self.items.len()
    }

    /// The notification on screen at `index`, oldest first.
    pub fn get(&self, index: usize) -> (r: &Notification)
        requires
            index < self.items().len(),
        ensures
            *r == self.items()[index as int],
    {
        &self.items[index]
    }
}

/// Taking away the first `id` of a sequence whose first `id` sits at `i` removes index `i`.
proof fn lemma_without_first_at(s: Seq<Notification>, id: u32, i: int)
    requires
        0 <= i < s.len(),
        s[i].spec_id() == id,
        forall|j: int| 0 <= j < i ==> #[trigger] s[j].spec_id() != id,
    ensures
        without_first(s, id) == s.remove(i),
    decreases i,
{
    if i == 0 {
        assert(s.drop_first() =~= s.remove(0));
    } else {
        assert forall|j: int| 0 <= j < i - 1 implies #[trigger] s.drop_first()[j].spec_id() != id by {
            assert(s.drop_first()[j] == s[j + 1]);
        }
        lemma_without_first_at(s.drop_first(), id, i - 1);
        assert(seq![s[0]] + s.drop_first().remove(i - 1) =~= s.remove(i));
    }
}

/// A sequence without `id` loses nothing.
proof fn lemma_without_first_absent(s: Seq<Notification>, id: u32)
    requires
        forall|j: int| 0 <= j < s.len() ==> #[trigger] s[j].spec_id() != id,
    ensures
        without_first(s, id) == s,
    decreases s.len(),
{
    if s.len() > 0 {
        assert forall|j: int| 0 <= j < s.len() - 1 implies #[trigger] s.drop_first()[j].spec_id() != id by {
            assert(s.drop_first()[j] == s[j + 1]);
        }
        lemma_without_first_absent(s.drop_first(), id);
        assert(seq![s[0]] + s.drop_first() =~= s);
    }
}

/// A notification whose number is on screen nowhere else leaves the screen as it was
/// before it came, once its time is up.
pub proof fn lemma_expire_undoes_receive(items: Seq<Notification>, n: Notification)
    requires
        forall|j: int| 0 <= j < items.len() ==> #[trigger] items[j].spec_id() != n.spec_id(),
    ensures
        without_first(items.push(n), n.spec_id()) == items,
{
    lemma_without_first_at(items.push(n), n.spec_id(), items.len() as int);
    assert(items.push(n).remove(items.len() as int) =~= items);
}

} // verus!
