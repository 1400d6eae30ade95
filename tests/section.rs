use std::collections::VecDeque;

use section_core::fake_crypto::{majority, Sig, SigSet};
use section_core::ledger::{genesis_dbc, Dbc, DbcId, Ledger, Tx, Wallet};
use section_core::membership::{Membership, Msg as MembershipMsg};
use section_core::node::{build_msg, Action, Command, Msg, Node, State};
use section_core::properties;
use section_core::stable_set::{Member, StableSet};
use section_core::Id;

fn m(ord_idx: u64, id: Id) -> Member {
    Member { ord_idx, id }
}

fn spend(inputs: Vec<Dbc>, outputs: Vec<u64>) -> Tx {
    Tx { inputs, outputs }
}

/// Runs a section of `servers` nodes to quiescence, delivering messages in the
/// order they were sent, with the messages of `late` delivered last.
fn simulate(genesis: &[Id], servers: u64, elder_count: usize, late: Option<Id>) -> Vec<State> {
    let node = Node { genesis_nodes: genesis.to_vec(), peers: (0..servers).collect(), elder_count };
    let mut states: Vec<State> = Vec::new();
    let mut queue: VecDeque<(Id, Id, Msg)> = VecDeque::new();
    let mut delayed: VecDeque<(Id, Id, Msg)> = VecDeque::new();
    fn enqueue(src: Id, cmds: Vec<Command>, queue: &mut VecDeque<(Id, Id, Msg)>) {
        for c in cmds {
            match c {
                Command::Send(dst, msg) => queue.push_back((src, dst, msg)),
                Command::Broadcast(to, msg) => {
                    for dst in to {
                        queue.push_back((src, dst, msg.clone()));
                    }
                }
            }
        }
    }
    for id in 0..servers {
        let (state, cmds) = node.on_start(id);
        states.push(state);
        enqueue(id, cmds, &mut queue);
    }
    let mut steps = 0;
    loop {
        let next = match queue.pop_front() {
            Some(x) => Some(x),
            None => delayed.pop_front(),
        };
        let Some((src, dst, msg)) = next else { break };
        if late == Some(src) && !queue.is_empty() {
            delayed.push_back((src, dst, msg));
            continue;
        }
        steps += 1;
        assert!(steps < 200_000, "the section did not settle");
        let dead_before = states[dst as usize].membership.stable_set.dead.clone();
        let cmds = node.on_msg(dst, &mut states[dst as usize], src, msg);
        for id in dead_before {
            assert!(states[dst as usize].membership.stable_set.dead.contains(&id));
        }
        for s in states.iter() {
            check_state(s);
        }
        enqueue(dst, cmds, &mut queue);
    }
    states
}

fn check_state(s: &State) {
    let members = &s.membership.stable_set.members;
    for (i, a) in members.iter().enumerate() {
        for b in members.iter().skip(i + 1) {
            assert_ne!(a.id, b.id);
            assert!(a < b);
        }
        assert!(!s.membership.stable_set.dead.contains(&a.id));
    }
    assert_eq!(s.wallet.ledger.sum_unspent_outputs(), Some(100));
}

fn member_ids(s: &State) -> Vec<Id> {
    let mut ids: Vec<Id> = s.membership.stable_set.members.iter().map(|m| m.id).collect();
    ids.sort();
    ids
}

#[test]
fn majority_is_strict() {
    assert!(majority(1, 1));
    assert!(!majority(1, 2));
    assert!(majority(2, 3));
    assert!(!majority(2, 4));
    assert!(majority(3, 4));
    assert!(!majority(0, 0));
}

#[test]
fn sig_verifies_signer_and_message() {
    let s = Sig::sign(3, 7u64);
    assert!(s.verify(3, &7));
    assert!(!s.verify(4, &7));
    assert!(!s.verify(3, &8));
}

#[test]
fn sig_set_counts_valid_shares_of_voters() {
    let mut set: SigSet<u64> = SigSet::new();
    set.add_share(1, Sig::sign(1, 5));
    set.add_share(2, Sig::sign(2, 5));
    set.add_share(3, Sig::sign(3, 6));
    assert!(set.verify(&vec![1, 2, 3], &5));
    assert!(!set.verify(&vec![1, 2, 3], &6));
    assert!(!set.verify(&vec![1, 4, 5, 6], &5));
    assert_eq!(set.ids(), vec![1, 2, 3]);
    let mut other: SigSet<u64> = SigSet::new();
    other.add_share(3, Sig::sign(3, 5));
    other.add_share(4, Sig::sign(4, 5));
    set.merge(other);
    assert_eq!(set.ids(), vec![1, 2, 3, 4]);
    assert!(set.verify(&vec![1, 2, 3, 4], &5));
}

#[test]
fn genesis_dbc_holds_hundred() {
    let g = genesis_dbc();
    assert_eq!(g.output_index, 0);
    assert_eq!(g.amount(), 100);
    assert!(g.tx.inputs.is_empty());
    assert!(g.verify() == false);
    assert!(!g.tx.verify_sums());
}

#[test]
fn sums_match_on_balanced_tx() {
    let tx = spend(vec![genesis_dbc()], vec![40, 60]);
    assert!(tx.verify_sums());
    let bad = spend(vec![genesis_dbc()], vec![40, 61]);
    assert!(!bad.verify_sums());
    let broken = spend(vec![Dbc { output_index: 5, tx: genesis_dbc().tx }], vec![100]);
    assert!(!broken.verify_sums());
    let huge = spend(vec![], vec![u64::MAX, 1]);
    assert!(!huge.verify_sums());
}

#[test]
fn dbc_ids_and_outputs() {
    let tx = spend(vec![genesis_dbc()], vec![40, 60]);
    let outs = tx.output_dbcs();
    assert_eq!(outs.len(), 2);
    assert_eq!(outs[1].amount(), 60);
    assert!(outs[1].verify());
    let ids = tx.output_dbc_ids_and_amounts();
    assert_eq!(ids.len(), 2);
    assert_eq!(ids[0].1, 40);
    assert_eq!(ids[1].0, outs[1].id());
    assert_eq!(outs[0].id(), DbcId { inputs: vec![genesis_dbc()], output_index: 0 });
}

#[test]
fn ledger_commits_a_witnessed_reissue() {
    let membership = Membership::new(&vec![0], 4);
    let mut ledger = Ledger::new(&vec![0]);
    let tx = spend(vec![genesis_dbc()], vec![40, 60]);
    assert!(ledger.validate_tx(&tx));
    assert!(ledger.log_tx_share(0, tx.clone(), 1));
    assert!(!ledger.log_tx_share(0, tx.clone(), 1));
    ledger.process_completed_commitments(&membership);
    assert!(ledger.pending_commitments.is_empty());
    assert_eq!(ledger.commitments.len(), 1);
    assert_eq!(ledger.commitments[0].1, tx);
    assert_eq!(ledger.sum_unspent_outputs(), Some(100));
    assert!(!ledger.validate_tx(&tx));
    let child = spend(vec![tx.output_dbcs()[0].clone()], vec![10, 30]);
    assert!(ledger.validate_tx(&child));
}

#[test]
fn ledger_refuses_concurrent_double_spend() {
    let mut ledger = Ledger::new(&vec![0, 1, 2]);
    let a = spend(vec![genesis_dbc()], vec![40, 60]);
    let b = spend(vec![genesis_dbc()], vec![50, 50]);
    assert!(ledger.log_tx_share(0, a.clone(), 0));
    assert!(!ledger.validate_tx(&b));
    assert!(!ledger.log_tx_share(0, b, 1));
    assert_eq!(ledger.pending_commitments.len(), 1);
    assert_eq!(ledger.pending_commitments[0].0, a);
}

#[test]
fn ledger_waits_for_quorum() {
    let membership = Membership::new(&vec![0, 1, 2], 4);
    let mut ledger = Ledger::new(&vec![0, 1, 2]);
    let tx = spend(vec![genesis_dbc()], vec![100]);
    assert!(ledger.log_tx_share(0, tx.clone(), 0));
    ledger.process_completed_commitments(&membership);
    assert!(ledger.commitments.is_empty());
    ledger.log_tx_share(0, tx.clone(), 1);
    ledger.process_completed_commitments(&membership);
    assert_eq!(ledger.commitments.len(), 1);
    assert_eq!(ledger.sum_unspent_outputs(), Some(100));
}

#[test]
fn wallet_reads_committed_tx() {
    let membership = Membership::new(&vec![0], 4);
    let mut wallet = Wallet::new(&vec![0]);
    let tx = spend(vec![genesis_dbc()], vec![30, 70]);
    let (to, msg) = wallet.reissue(&membership, tx.inputs.clone(), tx.outputs.clone());
    assert_eq!(to, vec![0]);
    let Action::Wallet(req) = msg.action else { panic!("not a wallet request") };
    let fwd = wallet.on_msg(&membership, 0, 1, req);
    assert!(fwd.is_some());
    assert_eq!(fwd.unwrap().0, Vec::<Id>::new());
    assert_eq!(wallet.read_tx(&genesis_dbc().id()), Some(tx));
}

#[test]
fn stable_set_add_refuses_seen_ids() {
    let mut s = StableSet::new();
    assert!(s.add(m(1, 5), 0));
    assert!(!s.add(m(1, 5), 0));
    assert!(s.add(m(1, 5), 1));
    assert_eq!(s.witnesses(&m(1, 5)), vec![0, 1]);
    assert!(s.process_ready_actions(&vec![0, 1]));
    assert!(s.contains(5));
    assert!(s.has_member(&m(1, 5)));
    assert!(!s.add(m(2, 5), 0));
    assert!(s.joining().is_empty());
}

#[test]
fn promotion_keeps_the_larger_rank() {
    let mut s = StableSet::new();
    s.add(m(3, 7), 0);
    s.add(m(2, 7), 0);
    assert!(s.process_ready_actions(&vec![0]));
    assert_eq!(s.members(), vec![m(3, 7)]);
    s.add(m(1, 8), 0);
    s.process_ready_actions(&vec![0]);
    assert_eq!(s.members(), vec![m(1, 8), m(3, 7)]);
    assert_eq!(s.ids(), vec![8, 7]);
}

#[test]
fn promotion_needs_strict_majority_of_elders() {
    let mut s = StableSet::new();
    s.add(m(1, 9), 0);
    assert!(!s.process_ready_actions(&vec![0, 1]));
    assert!(s.members().is_empty());
    s.add(m(1, 9), 1);
    assert!(s.process_ready_actions(&vec![0, 1]));
    assert_eq!(s.members(), vec![m(1, 9)]);
}

#[test]
fn leaving_marks_dead_for_good() {
    let mut s = StableSet::new();
    s.add(m(1, 4), 0);
    s.process_ready_actions(&vec![0]);
    assert!(s.remove(m(1, 4), 0));
    assert_eq!(s.leaving(), vec![m(1, 4)]);
    assert!(s.process_ready_actions(&vec![0]));
    assert!(!s.contains(4));
    assert!(s.has_seen(4));
    assert_eq!(s.dead, vec![4]);
    assert!(!s.add(m(2, 4), 0));
    assert!(!s.remove(m(1, 4), 1));
}

#[test]
fn stable_set_merge_adopts_unseen_members() {
    let mut a = StableSet::new();
    let mut b = StableSet::new();
    b.add(m(0, 1), 0);
    b.add(m(0, 2), 0);
    b.process_ready_actions(&vec![0]);
    a.merge(0, b.clone(), &vec![0]);
    assert_eq!(a.members(), vec![m(0, 1), m(0, 2)]);
    let wire = a.without_witnesses();
    assert_eq!(wire.members, a.members);
}

#[test]
fn membership_genesis_and_elders() {
    let ms = Membership::new(&vec![2, 0, 1], 4);
    assert_eq!(ms.members(), vec![m(0, 0), m(0, 1), m(0, 2)]);
    assert_eq!(ms.elders(), vec![0, 1, 2]);
    assert!(ms.is_member(2));
    assert!(!ms.is_member(3));
    let big = Membership::new(&vec![0, 1, 2, 3, 4, 5], 4);
    assert_eq!(big.elders(), vec![0, 1, 2, 3]);
    let one = Membership::new(&vec![3, 1], 1);
    assert_eq!(one.elders(), vec![1]);
}

#[test]
fn req_join_gets_next_rank() {
    let mut ms = Membership::new(&vec![0], 4);
    let elders = ms.elders();
    let sync = ms.on_msg(&elders, 0, 5, MembershipMsg::ReqJoin(5));
    assert_eq!(sync, vec![5]);
    assert_eq!(ms.stable_set.joining(), vec![m(1, 5)]);
    let again = ms.on_msg(&elders, 0, 5, MembershipMsg::ReqJoin(5));
    assert!(again.is_empty());
    let not_elder = ms.on_msg(&elders, 3, 6, MembershipMsg::ReqJoin(6));
    assert!(not_elder.is_empty());
    let others = ms.process_pending_actions(0);
    assert_eq!(others, vec![5]);
    assert_eq!(ms.members(), vec![m(0, 0), m(1, 5)]);
}

#[test]
fn join_share_and_leave() {
    let mut ms = Membership::new(&vec![0], 4);
    let elders = ms.elders();
    assert_eq!(ms.on_msg(&elders, 0, 0, MembershipMsg::JoinShare(m(1, 3))), vec![3]);
    ms.process_pending_actions(0);
    assert!(ms.is_member(3));
    let msg = ms.req_leave(3);
    assert_eq!(msg.action, Action::Membership(MembershipMsg::ReqLeave(3)));
    ms.process_pending_actions(0);
    assert!(ms.is_member(3));
    let elders = ms.elders();
    assert_eq!(ms.on_msg(&elders, 0, 3, MembershipMsg::ReqLeave(3)), Vec::<Id>::new());
    ms.process_pending_actions(0);
    assert!(!ms.is_member(3));
    assert_eq!(ms.stable_set.dead, vec![3]);
}

#[test]
fn merge_reports_nodes_behind() {
    let mut a = Membership::new(&vec![0], 4);
    let mut b = Membership::new(&vec![0], 4);
    b.stable_set.add(m(1, 1), 0);
    b.process_pending_actions(0);
    let wire = build_msg(&b, Action::Sync).stable_set;
    assert!(wire.joining_members.iter().all(|(_, w)| w.is_empty()));
    let sync = a.merge(wire, 2, 0);
    assert_eq!(sync, vec![1]);
    assert_eq!(a.stable_set.witnesses(&m(1, 1)), vec![0]);
}

#[test]
fn single_join() {
    let states = simulate(&[0], 2, 1, None);
    for s in &states {
        assert_eq!(s.membership.members(), vec![m(0, 0), m(1, 1)]);
        assert!(s.membership.stable_set.dead.is_empty());
    }
}

#[test]
fn concurrent_joins_two_elders() {
    let states = simulate(&[0, 1], 4, 2, None);
    let reference = states[0].membership.members();
    assert_eq!(member_ids(&states[0]), vec![0, 1, 2, 3]);
    assert_eq!(states[1].membership.members(), reference);
    let ranks: Vec<u64> = reference.iter().filter(|m| m.id >= 2).map(|m| m.ord_idx).collect();
    assert_eq!(ranks.len(), 2);
    assert!(ranks.iter().all(|r| *r >= 1));
}

#[test]
fn join_then_leave() {
    let states = simulate(&[0], 4, 1, None);
    assert!(states[3].is_leaving);
    assert_eq!(member_ids(&states[0]), vec![0, 1, 2]);
    assert!(states[0].membership.stable_set.dead.contains(&3));
    for s in states.iter().filter(|s| !s.is_leaving) {
        assert!(member_ids(s).starts_with(&[0, 1, 2]));
    }
}

#[test]
fn reissue_without_churn() {
    let membership = Membership::new(&vec![0], 4);
    let mut wallet = Wallet::new(&vec![0]);
    let tx = spend(vec![genesis_dbc()], vec![40, 60]);
    let Action::Wallet(req) = wallet.reissue(&membership, tx.inputs.clone(), tx.outputs.clone()).1.action else {
        panic!("not a wallet request")
    };
    wallet.on_msg(&membership, 0, 1, req);
    assert_eq!(wallet.read_tx(&genesis_dbc().id()), Some(tx));
    assert_eq!(wallet.ledger.sum_unspent_outputs(), Some(100));
}

#[test]
fn double_spend_attempt_commits_at_most_one() {
    let states = simulate(&[0], 3, 1, None);
    let mut committed: Vec<Tx> = Vec::new();
    for s in &states {
        if let Some(tx) = s.wallet.read_tx(&genesis_dbc().id()) {
            if !committed.contains(&tx) {
                committed.push(tx);
            }
        }
    }
    assert!(committed.len() <= 1);
}

#[test]
fn delayed_elder_converges() {
    let states = simulate(&[0, 1, 2], 3, 3, Some(2));
    for s in &states {
        assert_eq!(member_ids(s), vec![0, 1, 2]);
    }
}

#[test]
fn unspent_sum_reports_overflow() {
    let mut ledger = Ledger::new(&vec![0]);
    let big = spend(vec![genesis_dbc()], vec![u64::MAX, 1]);
    ledger.commitments.push((genesis_dbc().id(), big));
    assert_eq!(ledger.sum_unspent_outputs(), None);
}

#[test]
fn unspent_sum_counts_each_committed_tx_once() {
    let mut ledger = Ledger::new(&vec![0]);
    let a = spend(vec![genesis_dbc()], vec![100]);
    let out = a.output_dbcs();
    let b = spend(vec![out[0].clone()], vec![30, 70]);
    ledger.commitments.push((genesis_dbc().id(), a.clone()));
    ledger.commitments.push((out[0].id(), b.clone()));
    assert_eq!(ledger.sum_unspent_outputs(), Some(100));
    let c = spend(vec![b.output_dbcs()[0].clone(), b.output_dbcs()[1].clone()], vec![100]);
    ledger.commitments.push((b.output_dbcs()[0].id(), c.clone()));
    ledger.commitments.push((b.output_dbcs()[1].id(), c));
    assert_eq!(ledger.sum_unspent_outputs(), Some(100));
}

#[test]
fn committed_input_cannot_be_spent_again() {
    let membership = Membership::new(&vec![0], 1);
    let mut ledger = Ledger::new(&vec![0]);
    let a = spend(vec![genesis_dbc()], vec![100]);
    ledger.log_tx_share(0, a.clone(), 0);
    ledger.process_completed_commitments(&membership);
    let b = spend(vec![genesis_dbc()], vec![50, 50]);
    assert!(!ledger.validate_tx(&b));
    assert!(!ledger.log_tx_share(0, b, 0));
    ledger.process_completed_commitments(&membership);
    assert_eq!(ledger.commitments.len(), 1);
    assert_eq!(ledger.commitments[0].1, a);
}

#[test]
fn unknown_parent_is_refused() {
    let ledger = Ledger::new(&vec![0]);
    let a = spend(vec![genesis_dbc()], vec![100]);
    let child = spend(vec![a.output_dbcs()[0].clone()], vec![100]);
    assert!(!ledger.validate_tx(&child));
}

#[test]
fn node_start_asks_to_join() {
    let node = Node { genesis_nodes: vec![0], peers: vec![0, 1], elder_count: 1 };
    let (state, cmds) = node.on_start(1);
    assert!(!state.is_leaving);
    assert_eq!(state.membership.members(), vec![m(0, 0)]);
    assert_eq!(cmds.len(), 2);
    match &cmds[0] {
        Command::Broadcast(to, msg) => {
            assert_eq!(to, &vec![0]);
            assert_eq!(msg.action, Action::Membership(MembershipMsg::ReqJoin(1)));
        }
        _ => panic!("expected a join request"),
    }
    let (_, own) = node.on_start(0);
    assert_eq!(own.len(), 1);
    assert!(matches!(&own[0], Command::Send(0, msg) if msg.action == Action::StartReissue));
}

#[test]
fn spend_of_a_dbc_with_a_pending_id_is_refused() {
    let mut ledger = Ledger::new(&vec![0]);
    assert!(ledger.log_tx_share(0, spend(vec![genesis_dbc()], vec![100]), 0));
    let lookalike = Dbc { output_index: 0, tx: spend(vec![], vec![0]) };
    assert!(lookalike.verify());
    assert_eq!(lookalike.id(), genesis_dbc().id());
    let other = spend(vec![lookalike], vec![0]);
    assert!(!ledger.validate_tx(&other));
    assert!(!ledger.log_tx_share(0, other, 1));
    assert_eq!(ledger.pending_commitments.len(), 1);
}

#[test]
fn stable_set_merge_takes_leave_evidence() {
    let mut a = StableSet::new();
    a.add(m(0, 1), 0);
    a.add(m(0, 2), 0);
    a.process_ready_actions(&vec![0]);
    let mut b = a.clone();
    b.remove(m(0, 2), 0);
    a.merge(0, b, &vec![0]);
    assert_eq!(a.members(), vec![m(0, 1)]);
    assert_eq!(a.dead, vec![2]);
}

#[test]
fn node_sends_own_leave_trigger() {
    let node = Node { genesis_nodes: vec![0, 1, 2, 3], peers: vec![0, 1, 2, 3], elder_count: 4 };
    let (mut state, _) = node.on_start(3);
    let sync = build_msg(&state.membership, Action::Sync);
    let cmds = node.on_msg(3, &mut state, 0, sync);
    assert!(state.is_leaving);
    assert!(cmds.iter().any(|c| matches!(c, Command::Send(3, msg) if msg.action == Action::TriggerLeave)));
    match cmds.last().unwrap() {
        Command::Broadcast(to, msg) => {
            assert!(!to.contains(&3));
            assert_eq!(msg.action, Action::Sync);
        }
        _ => panic!("expected a sync"),
    }
}

#[test]
fn node_start_reissue_goes_to_elders() {
    let node = Node { genesis_nodes: vec![0], peers: vec![0, 1], elder_count: 1 };
    let (mut state, _) = node.on_start(1);
    let trigger = build_msg(&state.membership, Action::StartReissue);
    let cmds = node.on_msg(1, &mut state, 1, trigger);
    match &cmds[0] {
        Command::Broadcast(to, msg) => {
            assert_eq!(to, &vec![0]);
            let Action::Wallet(section_core::ledger::Msg::ReqReissue(tx)) = &msg.action else {
                panic!("expected a spend request")
            };
            assert_eq!(tx, &spend(vec![genesis_dbc()], vec![1, 99]));
        }
        _ => panic!("expected a broadcast"),
    }
}

#[test]
fn section_properties_on_a_settled_run() {
    let states = simulate(&[0], 2, 1, None);
    assert!(properties::stable_set_converged(&states));
    assert!(properties::all_nodes_joined_who_havent_left(&states));
    assert!(properties::all_nodes_who_are_leaving_eventually_left(&states));
    assert!(properties::unspent_outputs_equals_genesis_amount(&states));
    assert!(properties::no_double_spends(&states, &genesis_dbc().id()));
    assert_eq!(properties::reference_index(&states), Some(0));
}

#[test]
fn double_spend_check_finds_two_quorums() {
    let membership = Membership::new(&vec![0, 1], 1);
    let mut a = Wallet::new(&vec![0]);
    let mut b = Wallet::new(&vec![0]);
    let t1 = spend(vec![genesis_dbc()], vec![100]);
    let t2 = spend(vec![genesis_dbc()], vec![60, 40]);
    a.ledger.log_tx_share(0, t1, 0);
    a.ledger.process_completed_commitments(&membership);
    b.ledger.log_tx_share(1, t2, 1);
    b.ledger.process_completed_commitments(&Membership::new(&vec![1], 1));
    assert_eq!(b.ledger.commitments.len(), 1);
    let node = Node { genesis_nodes: vec![0, 1], peers: vec![0, 1], elder_count: 1 };
    let (mut s0, _) = node.on_start(0);
    s0.wallet = a;
    assert!(properties::no_double_spends(&vec![s0.clone(), s0.clone()], &genesis_dbc().id()));
    let node2 = Node { genesis_nodes: vec![1], peers: vec![0, 1], elder_count: 1 };
    let (mut s_other, _) = node2.on_start(1);
    s_other.wallet = b;
    assert!(!properties::no_double_spends(&vec![s0, s_other], &genesis_dbc().id()));
}
