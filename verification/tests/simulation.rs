//! Discrete-event simulation of a whole group: the agents of the library,
//! wired through FIFO channels per ordered pair of ranks, driven under
//! deterministic schedules. After every event the safety properties are
//! checked: the needs of the peers in the critical section fit the room
//! capacity, at most as many peers transit (Down or Up) as there are lifts,
//! and the timestamps on every channel never decrease in send order.
use std::collections::VecDeque;

use rooms_and_lifts::agent::Agent;
use rooms_and_lifts::agent::AgentState;
use rooms_and_lifts::comm::OutgoingMessage;
use rooms_and_lifts::Config;

struct Net {
    agents: Vec<Agent>,
    needs: Vec<u8>,
    rooms_count: u8,
    lifts_count: u8,
    /// channels[from][to]: (tag, payload) in send order
    channels: Vec<Vec<VecDeque<(i32, Vec<u16>)>>>,
    /// the last timestamp sent on channels[from][to]
    last_stamp: Vec<Vec<u16>>,
    /// ranks in the order they entered Crit, with everyone's state at entry
    crit_entries: Vec<(usize, Vec<AgentState>)>,
}

impl Net {
    fn new(rooms_count: u8, lifts_count: u8, needs: &[u8]) -> Net {
        let n = needs.len();
        let config = Config::new(rooms_count, lifts_count, n);
        let agents = needs
            .iter()
            .enumerate()
            .map(|(rank, &need)| Agent::new(rank as i32, need, config))
            .collect();
        Net {
            agents,
            needs: needs.to_vec(),
            rooms_count,
            lifts_count,
            channels: vec![vec![VecDeque::new(); n]; n],
            last_stamp: vec![vec![0; n]; n],
            crit_entries: Vec::new(),
        }
    }

    fn states(&self) -> Vec<AgentState> {
        self.agents.iter().map(|a| a.state()).collect()
    }

    fn route(&mut self, from: usize, msgs: Vec<OutgoingMessage>) {
        for m in msgs {
            let to = m.receiver_rank as usize;
            let stamp = *m.payload.last().unwrap();
            // clock monotonicity per channel: stamps never decrease in send
            // order
            assert!(
                stamp >= self.last_stamp[from][to],
                "stamp went back on channel {} -> {}",
                from,
                to
            );
            self.last_stamp[from][to] = stamp;
            self.channels[from][to].push_back((m.tag.to_i32(), m.payload));
        }
    }

    fn check_safety(&self) {
        // room safety: the needs of the peers in Crit fit the capacity
        let in_crit: u32 = self
            .agents
            .iter()
            .zip(&self.needs)
            .filter(|(a, _)| a.state() == AgentState::Crit)
            .map(|(_, &need)| need as u32)
            .sum();
        assert!(in_crit <= self.rooms_count as u32, "rooms over capacity");
        // lift safety: at most as many peers going down as lifts, and at
        // most as many going up — descents serialize through the deferred
        // enter grants, ascents through the deferred leave grants
        let going_down = self
            .agents
            .iter()
            .filter(|a| a.state() == AgentState::Down)
            .count();
        let going_up = self.agents.iter().filter(|a| a.state() == AgentState::Up).count();
        assert!(going_down <= self.lifts_count as usize, "descents over capacity");
        assert!(going_up <= self.lifts_count as usize, "ascents over capacity");
    }

    /// One progress-thread step of `rank`.
    fn step(&mut self, rank: usize) {
        let before = self.agents[rank].state();
        let msgs = self.agents[rank].run();
        let after = self.agents[rank].state();
        self.route(rank, msgs);
        if after == AgentState::Crit && before != AgentState::Crit {
            let snapshot = self.states();
            self.crit_entries.push((rank, snapshot));
        }
        self.check_safety();
    }

    /// Delivers the oldest message on one channel, if any.
    fn deliver_one(&mut self, from: usize, to: usize) -> bool {
        match self.channels[from][to].pop_front() {
            None => false,
            Some((tag, payload)) => {
                let (replies, _proceed) = self.agents[to].handle_message(
                    from as i32,
                    tag,
                    &payload,
                );
                self.route(to, replies);
                self.check_safety();
                true
            },
        }
    }

    /// Delivers until every channel is empty, sweeping the pairs in rank
    /// order.
    fn deliver_all(&mut self) {
        let n = self.agents.len();
        loop {
            let mut delivered = false;
            for from in 0..n {
                for to in 0..n {
                    if self.deliver_one(from, to) {
                        delivered = true;
                    }
                }
            }
            if !delivered {
                break;
            }
        }
    }

    /// Drives every active peer through one full cycle (Rest to Rest with a
    /// Crit passage), delivering after each round of steps.
    fn drive_one_cycle(&mut self, active: &[usize], max_rounds: usize) {
        let mut entered = vec![false; self.agents.len()];
        let mut done = vec![false; self.agents.len()];
        for _ in 0..max_rounds {
            for &rank in active {
                if done[rank] {
                    continue;
                }
                if entered[rank] && self.agents[rank].state() == AgentState::Rest {
                    done[rank] = true;
                    continue;
                }
                self.step(rank);
                if self.agents[rank].state() == AgentState::Crit {
                    entered[rank] = true;
                }
            }
            self.deliver_all();
            if active.iter().all(|&rank| done[rank]) {
                return;
            }
        }
        panic!("the group made no progress within the allotted rounds");
    }

    fn crit_order(&self) -> Vec<usize> {
        self.crit_entries.iter().map(|(rank, _)| *rank).collect()
    }
}

#[test]
fn s1_serialization_ties_break_by_rank() {
    // three peers, each needing one of two rooms, one lift; all try at once
    let mut net = Net::new(2, 1, &[1, 1, 1]);
    net.drive_one_cycle(&[0, 1, 2], 100);
    assert_eq!(net.crit_order(), vec![0, 1, 2]);
    for agent in &net.agents {
        assert_eq!(agent.state(), AgentState::Rest);
        assert!(agent.clock.time() >= 12, "clock stayed at {}", agent.clock.time());
    }
}

#[test]
fn s2_room_share_respects_both_capacities() {
    // rank 2 wants the whole room capacity: it can never share Crit, and
    // the single lift serializes every descent; the safety checks run after
    // every event
    let mut net = Net::new(2, 1, &[1, 1, 2]);
    net.drive_one_cycle(&[0, 1, 2], 100);
    let order = net.crit_order();
    assert_eq!(order.len(), 3);
    // whenever rank 2 occupied rooms, neither 0 nor 1 was in Crit
    for (rank, snapshot) in &net.crit_entries {
        if *rank == 2 {
            assert!(snapshot[0] != AgentState::Crit && snapshot[1] != AgentState::Crit);
        }
    }
}

#[test]
fn s3_older_request_enters_first() {
    // rank 1 asks at logical time 3, rank 0 at time 5: the older request
    // wins whatever the interleaving; rank 2 only answers
    for reversed in [false, true] {
        let mut net = Net::new(2, 1, &[1, 1, 1]);
        for _ in 0..5 {
            net.agents[0].clock.inc();
        }
        for _ in 0..3 {
            net.agents[1].clock.inc();
        }
        if reversed {
            net.step(1);
            net.step(0);
        } else {
            net.step(0);
            net.step(1);
        }
        assert_eq!(net.agents[0].enter_time(), 5);
        assert_eq!(net.agents[1].enter_time(), 3);
        net.drive_one_cycle(&[0, 1], 100);
        assert_eq!(net.crit_order(), vec![1, 0]);
    }
}

#[test]
fn s4_tie_break_defers_the_larger_rank_until_up() {
    // ranks 0 and 2 broadcast at the same logical time 7: rank 0 wins the
    // tie, and rank 2 descends only once rank 0 has gone up again
    let mut net = Net::new(2, 1, &[1, 1, 2]);
    for _ in 0..7 {
        net.agents[0].clock.inc();
        net.agents[2].clock.inc();
    }
    net.step(0);
    net.step(2);
    assert_eq!(net.agents[0].enter_time(), 7);
    assert_eq!(net.agents[2].enter_time(), 7);
    net.drive_one_cycle(&[0, 2], 100);
    assert_eq!(net.crit_order(), vec![0, 2]);
    // at rank 2's entry, rank 0 had already finished its whole cycle
    let (_, snapshot) = &net.crit_entries[1];
    assert_eq!(snapshot[0], AgentState::Rest);
}

#[test]
fn s5_finish_stops_every_receiver_and_spares_the_cycle() {
    // rank 0 completes a full cycle; the shutdown broadcast then stops all
    // receiver loops without touching any protocol state
    let mut net = Net::new(2, 1, &[1, 1, 1]);
    net.drive_one_cycle(&[0], 100);
    assert_eq!(net.crit_order(), vec![0]);
    assert_eq!(net.agents[0].state(), AgentState::Rest);
    let states = net.states();
    for rank in 0..3 {
        let rooms: Vec<u8> = (0..3).map(|r| net.agents[rank].rooms_at_rank(r)).collect();
        let (replies, proceed) = net.agents[rank].handle_message(0, 3, &vec![0]);
        assert!(!proceed, "the receiver of rank {} did not stop", rank);
        assert!(replies.is_empty());
        assert_eq!(net.agents[rank].state(), states[rank]);
        let rooms_after: Vec<u8> = (0..3).map(|r| net.agents[rank].rooms_at_rank(r)).collect();
        assert_eq!(rooms, rooms_after);
    }
}

#[test]
fn s6_deferred_lift_is_granted_on_the_way_to_rest() {
    // rank 0 stands in Leaving with leave time 4 when rank 1 asks to leave
    // at time 6: rank 0 defers, and grants the lift on its own step to Rest
    let mut net = Net::new(2, 1, &[1, 1, 1]);
    net.agents[0].set_state(AgentState::Leaving);
    for _ in 0..4 {
        net.agents[0].clock.inc();
    }
    net.agents[0].set_leave_time();
    assert_eq!(net.agents[0].leave_time(), 4);
    let (replies, _) = net.agents[0].handle_message(1, 2, &vec![6]);
    assert!(replies.is_empty(), "the younger leave request was not deferred");
    // the lift vector is already clear, so rank 0 goes up at once
    net.step(0); // Leaving -> Up
    assert_eq!(net.agents[0].state(), AgentState::Up);
    let before = net.channels[0][1].len();
    net.step(0); // Up -> Rest drains the deferred lift
    assert_eq!(net.agents[0].state(), AgentState::Rest);
    assert_eq!(net.channels[0][1].len(), before + 1);
    let (tag, payload) = net.channels[0][1].pop_back().unwrap();
    assert_eq!(tag, 0, "the grant travels as a Resources message");
    assert_eq!(payload[0], 0);
    assert_eq!(payload[1], 1);
}

#[test]
fn progress_a_trying_group_reaches_crit() {
    // if peers enter Try, some peer reaches Crit within a small, bounded
    // number of rounds: the driver panics otherwise
    let mut net = Net::new(2, 1, &[1, 1, 1]);
    net.drive_one_cycle(&[0, 1, 2], 40);
    assert!(!net.crit_entries.is_empty());
}

#[test]
fn two_cycles_in_a_row_stay_safe() {
    // the accounting survives a second cycle on the same agents: the safety
    // checks hold throughout and every debt settles again
    let mut net = Net::new(2, 1, &[1, 1, 1]);
    net.drive_one_cycle(&[0, 1, 2], 100);
    net.drive_one_cycle(&[0, 1, 2], 100);
    let order = net.crit_order();
    assert_eq!(order.len(), 6);
    for rank in 0..3 {
        assert_eq!(order.iter().filter(|&&r| r == rank).count(), 2);
    }
    for (rank, agent) in net.agents.iter().enumerate() {
        assert_eq!(agent.state(), AgentState::Rest);
        // once quiescent, a peer believes only in its own last claim: its
        // need in rooms and one lift; every foreign debt settled to zero
        assert_eq!(agent.taken_rooms_count(), net.needs[rank] as u16);
        assert_eq!(agent.taken_lifts_count(), 1);
        for other in 0..3 {
            if other != rank as i32 {
                assert_eq!(agent.rooms_at_rank(other), 0);
                assert_eq!(agent.lifts_at_rank(other), 0);
            }
        }
    }
}
