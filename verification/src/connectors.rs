use vstd::prelude::*;

verus! {

/// The kind of a connector, as far as the linking rules are concerned.
///
/// A snap connector links to exactly one other snap connector of the opposite
/// gender (`is_a` differs: by convention plugs are "A" and sockets are "B").
/// A clip links to a single bar, while a bar can hold many clips.
///
/// For a bar, `steps` is the number of evenly spaced clip positions along the
/// bar besides its far end: a bar offers `steps + 1` clip positions in all.
#[derive(Debug, Clone, Copy, PartialEq, Eq, Structural)]
pub enum ConnKind {
    SnapConn { is_a: bool },
    ClipConn,
    BarConn { steps: u32 },
}

/// Whether a connector of kind `a` may ever be linked to one of kind `b`.
pub open spec fn compatible(a: ConnKind, b: ConnKind) -> bool {
    match (a, b) {
        (ConnKind::SnapConn { is_a: x }, ConnKind::SnapConn { is_a: y }) => x != y,
        (ConnKind::ClipConn, ConnKind::BarConn { .. }) => true,
        (ConnKind::BarConn { .. }, ConnKind::ClipConn) => true,
        _ => false,
    }
}

/// Whether a connector of this kind holds at most one link.
pub open spec fn single_link(k: ConnKind) -> bool {
    !(k is BarConn)
}

/// The rule that decides, while a new placement `c` is added, whether its
/// connector (kind `ck`) is linked to connector (kind `mk`) of an earlier
/// placement `m`. `touching` is the geometric verdict (the snap points
/// coincide, or the clip lies on the bar within its length); `m_free` and
/// `c_free` say whether the two connectors have no link yet.
pub open spec fn link_rule(mk: ConnKind, ck: ConnKind, touching: bool, m_free: bool, c_free: bool) -> bool {
    touching && match (mk, ck) {
        (ConnKind::SnapConn { is_a: x }, ConnKind::SnapConn { is_a: y }) => x != y && m_free && c_free,
        (ConnKind::ClipConn, ConnKind::BarConn { .. }) => m_free,
        (ConnKind::BarConn { .. }, ConnKind::ClipConn) => c_free,
        _ => false,
    }
}

/// Executable form of [`link_rule`].
pub fn should_link(mk: ConnKind, ck: ConnKind, touching: bool, m_free: bool, c_free: bool) -> (res: bool)
    ensures
        res == link_rule(mk, ck, touching, m_free, c_free),
        res ==> touching,
        res ==> compatible(mk, ck),
        mk is ClipConn && ck is BarConn ==> res == (touching && m_free),
        mk is BarConn && ck is ClipConn ==> res == (touching && c_free),
{
    proof {
        lemma_link_needs_touching(mk, ck, touching, m_free, c_free);
        lemma_bar_holds_many_clips(mk, ck, touching, m_free, c_free);
    }
    if !touching {
        return false;
    }
    match (mk, ck) {
        (ConnKind::SnapConn { is_a: x }, ConnKind::SnapConn { is_a: y }) => x != y && m_free && c_free,
        (ConnKind::ClipConn, ConnKind::BarConn { .. }) => m_free,
        (ConnKind::BarConn { .. }, ConnKind::ClipConn) => c_free,
        _ => false,
    }
}

/// Executable form of [`compatible`].
pub fn can_link(a: ConnKind, b: ConnKind) -> (res: bool)
    ensures
        res == compatible(a, b),
{
    match (a, b) {
        (ConnKind::SnapConn { is_a: x }, ConnKind::SnapConn { is_a: y }) => x != y,
        (ConnKind::ClipConn, ConnKind::BarConn { .. }) => true,
        (ConnKind::BarConn { .. }, ConnKind::ClipConn) => true,
        _ => false,
    }
}

/// Executable form of [`single_link`].
pub fn holds_one_link(k: ConnKind) -> (res: bool)
    ensures
        res == single_link(k),
{
    match k {
        ConnKind::BarConn { .. } => false,
        _ => true,
    }
}

/// A link never joins two connectors that the rules keep apart.
pub proof fn lemma_link_rule_compatible(mk: ConnKind, ck: ConnKind, touching: bool, m_free: bool, c_free: bool)
    requires
        link_rule(mk, ck, touching, m_free, c_free),
    ensures
        compatible(mk, ck),
        compatible(ck, mk),
        single_link(mk) ==> m_free,
        single_link(ck) ==> c_free,
{
}

/// A link is only made between connectors whose geometric verdict is that
/// they touch.
pub proof fn lemma_link_needs_touching(mk: ConnKind, ck: ConnKind, touching: bool, m_free: bool, c_free: bool)
    ensures
        link_rule(mk, ck, touching, m_free, c_free) ==> touching,
        !touching ==> !link_rule(mk, ck, touching, m_free, c_free),
{
}

/// A bar holds any number of clips: a clip and a bar that touch are linked
/// exactly when the clip is free, whatever the bar already holds.
pub proof fn lemma_bar_holds_many_clips(mk: ConnKind, ck: ConnKind, touching: bool, m_free: bool, c_free: bool)
    ensures
        mk is ClipConn && ck is BarConn ==> link_rule(mk, ck, touching, m_free, c_free) == (touching && m_free),
        mk is BarConn && ck is ClipConn ==> link_rule(mk, ck, touching, m_free, c_free) == (touching && c_free),
{
}

/// Snap connectors link in pairs: a plug and a socket that touch, both of
/// them free.
pub proof fn lemma_snaps_link_in_pairs(a: bool, b: bool, touching: bool, m_free: bool, c_free: bool)
    ensures
        link_rule(ConnKind::SnapConn { is_a: a }, ConnKind::SnapConn { is_a: b }, touching, m_free, c_free) == (
        touching && a != b && m_free && c_free),
{
}

/// Connectors of kinds that never go together are never linked.
pub proof fn lemma_incompatible_never_link(mk: ConnKind, ck: ConnKind, touching: bool, m_free: bool, c_free: bool)
    ensures
        !compatible(mk, ck) ==> !link_rule(mk, ck, touching, m_free, c_free),
        (mk is ClipConn && ck is ClipConn) || (mk is BarConn && ck is BarConn) || (mk is SnapConn && !(ck is SnapConn))
            || (!(mk is SnapConn) && ck is SnapConn) ==> !link_rule(mk, ck, touching, m_free, c_free),
{
}

} // verus!
