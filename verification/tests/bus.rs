use std::sync::{Arc, Mutex};
use std::time::Duration;

use serial::bus::{collided, gather, take_reply, Bus, Device, Reading, Reply};
use serial::{protocol_error, Error};

/// A device that answers `[address, byte + 1]` to `[address, byte]`, and
/// refuses `[address, 0xff]`.
struct Echo(u8);

impl Device for Echo {
    fn hear(&self, frame: &[u8]) -> Reply {
        match frame {
            [address, 0xff] if *address == self.0 => Err(protocol_error("refused")),
            [address, byte] if *address == self.0 => Ok(Some(vec![*address, byte + 1])),
            _ => Ok(None),
        }
    }
}

fn bus(addresses: &[u8]) -> Bus {
    let mut bus = Bus::new("rs485");
    for address in addresses {
        bus.attach(Arc::new(Echo(*address)));
    }
    bus
}

/// The next frame on `bus` within `timeout`, waited for.
fn receive(bus: &mut Bus, timeout: Duration) -> Result<Option<Vec<u8>>, Error> {
    let mut reading = bus.receive(timeout)?;
    loop {
        match reading {
            Reading::Frame(bytes) => return Ok(Some(bytes)),
            Reading::Silence => return Ok(None),
            Reading::Wait { until, deadline } => {
                while bus.clock().as_nanos() < until {}
                reading = bus.resume(deadline);
            }
        }
    }
}

#[test]
fn the_addressed_device_answers_and_the_others_stay_silent() {
    let mut bus = bus(&[1, 2, 3]);
    bus.transmit(&[2, 10]).expect("sent");
    assert_eq!(
        receive(&mut bus, Duration::ZERO).expect("read"),
        Some(vec![2, 11])
    );
    bus.transmit(&[9, 10]).expect("sent");
    assert_eq!(
        receive(&mut bus, Duration::ZERO).expect("read"),
        None,
        "nobody at 9"
    );
    assert_eq!(bus.name(), "rs485");
}

/// A device at `address` that always answers `answer`.
struct Fixed(u8, Vec<u8>);

impl Device for Fixed {
    fn hear(&self, frame: &[u8]) -> Reply {
        if frame.first() == Some(&self.0) {
            Ok(Some(self.1.clone()))
        } else {
            Ok(None)
        }
    }
}

#[test]
fn two_devices_answering_one_frame_collide_into_what_neither_sent() {
    // Answers that differ overlay into bytes neither device sent. Two
    // identical answers overlay into themselves, on a real pair of wires
    // too, which is why a protocol's address, not the bus, keeps two
    // devices from answering at once.
    let mut bus = Bus::new("rs485");
    bus.attach(Arc::new(Fixed(5, vec![0x05, 0x11])));
    bus.attach(Arc::new(Fixed(5, vec![0x40, 0x02, 0x7f])));
    bus.transmit(&[5, 0x10]).expect("sent");
    assert_eq!(
        receive(&mut bus, Duration::ZERO).expect("read"),
        Some(vec![0x45, 0x13, 0x7f])
    );
}

#[test]
fn a_device_speaks_unasked_and_is_read_in_order() {
    let mut bus = bus(&[1]);
    bus.speak(vec![0xaa]);
    bus.transmit(&[1, 1]).expect("sent");
    assert_eq!(
        receive(&mut bus, Duration::ZERO).expect("burst"),
        Some(vec![0xaa])
    );
    assert_eq!(
        receive(&mut bus, Duration::ZERO).expect("answer"),
        Some(vec![1, 2])
    );
}

#[test]
fn a_master_that_polls_before_the_turnaround_reads_nothing_yet() {
    let mut bus = bus(&[1]).with_turnaround(Duration::from_millis(40));
    bus.transmit(&[1, 1]).expect("sent");
    assert_eq!(receive(&mut bus, Duration::ZERO).expect("early"), None);
    assert_eq!(
        receive(&mut bus, Duration::from_millis(500)).expect("waited"),
        Some(vec![1, 2])
    );
}

#[test]
fn a_lost_character_leaves_the_device_silent_and_a_break_is_met() {
    let mut bus = bus(&[1]);
    bus.lose_a_character_every(2);
    bus.transmit(&[1, 1]).expect("first arrives whole");
    assert_eq!(
        receive(&mut bus, Duration::ZERO).expect("read"),
        Some(vec![1, 2])
    );
    bus.transmit(&[1, 1]).expect("second loses a character");
    assert_eq!(receive(&mut bus, Duration::ZERO).expect("read"), None);
    bus.break_the_line();
    assert!(
        receive(&mut bus, Duration::ZERO).is_err(),
        "a break condition"
    );
    assert_eq!(receive(&mut bus, Duration::ZERO).expect("once"), None);
    assert!(bus.transmit(&[1, 0xff]).is_err(), "an intact frame refused");
}

#[test]
fn answers_overlay_bit_by_bit_whatever_their_order() {
    assert_eq!(collided(&[]), Vec::<u8>::new());
    assert_eq!(collided(&[vec![1, 2]]), vec![1, 2]);
    assert_eq!(collided(&[vec![1, 2], vec![1, 2]]), vec![1, 2]);
    let three = [vec![0x80, 0x01], vec![0x0f], vec![0x10, 0x02, 0x44]];
    assert_eq!(collided(&three), vec![0x9f, 0x03, 0x44]);
    let turned = [vec![0x0f], vec![0x10, 0x02, 0x44], vec![0x80, 0x01]];
    assert_eq!(collided(&turned), collided(&three));
}

/// A device that complains of whatever it hears.
struct Sulking;

impl Device for Sulking {
    fn hear(&self, _frame: &[u8]) -> Reply {
        Err(protocol_error("no"))
    }
}

#[test]
fn a_damaged_frame_is_no_error_and_a_refused_one_leaves_the_line_alone() {
    let mut bus = bus(&[1]);
    bus.attach(Arc::new(Sulking));
    let refused = bus.transmit(&[1, 1]);
    assert_eq!(refused, Err(Error::Protocol("no".to_string())));
    assert_eq!(receive(&mut bus, Duration::ZERO), Ok(None));
    bus.lose_a_character_every(0);
    assert_eq!(bus.transmit(&[1, 1]), Ok(()));
    // An empty frame has no character to lose.
    assert_eq!(
        bus.transmit(&[]),
        Err(Error::Protocol("no".to_string()))
    );
    assert_eq!(bus.sent(), 3);
}

#[test]
fn the_middle_character_is_lost_from_every_nth_frame() {
    let mut bus = Bus::new("rs485");
    bus.lose_a_character_every(3);
    assert_eq!(bus.heard(&[1, 2, 3]), (vec![1, 2, 3], false));
    assert_eq!(bus.heard(&[1, 2, 3]), (vec![1, 2, 3], false));
    assert_eq!(bus.heard(&[1, 2, 3]), (vec![1, 3], true));
    assert_eq!(bus.heard(&[1, 2, 3]), (vec![1, 2, 3], false));
    assert_eq!(bus.heard(&[]), (vec![], false));
    assert_eq!(bus.heard(&[]), (vec![], false));
    assert_eq!(bus.heard(&[1, 2, 3, 4]), (vec![1, 2, 3, 4], false));
    assert_eq!(bus.heard(&[1]), (vec![1], false));
    assert_eq!(bus.heard(&[1, 2, 3, 4]), (vec![1, 2, 4], true));
}

#[test]
fn a_frame_is_read_when_its_moment_has_come() {
    let mut bus = Bus::new("rs485").with_turnaround(Duration::from_nanos(40));
    bus.queue(vec![7], Duration::from_nanos(100));
    bus.queue(vec![8], Duration::from_nanos(101));
    let early = bus.poll(Duration::from_nanos(139), 139);
    assert!(matches!(early, Reading::Silence));
    let waits = bus.poll(Duration::from_nanos(139), 140);
    assert!(matches!(
        waits,
        Reading::Wait {
            until: 140,
            deadline: 140
        }
    ));
    let first = bus.poll(Duration::from_nanos(140), 0);
    assert!(matches!(first, Reading::Frame(bytes) if bytes == [7]));
    let second = bus.receive_at(
        Duration::from_nanos(130),
        Duration::from_nanos(11),
        Duration::from_nanos(131),
    );
    assert!(matches!(
        second,
        Ok(Reading::Wait {
            until: 141,
            deadline: 141
        })
    ));
    let second = bus.poll(Duration::from_nanos(150), 0);
    assert!(matches!(second, Reading::Frame(bytes) if bytes == [8]));
    assert!(matches!(
        bus.poll(Duration::from_secs(9), 0),
        Reading::Silence
    ));
}

#[test]
fn a_device_behind_a_refusal_hears_the_frame_too() {
    let behind = Arc::new(Listening(Mutex::new(vec![])));
    let mut bus = Bus::new("rs485");
    bus.attach(Arc::new(Fixed(1, vec![9])));
    bus.attach(Arc::new(Sulking));
    bus.attach(behind.clone());
    bus.attach(Arc::new(Echo(1)));
    assert_eq!(
        bus.transmit(&[1, 0xff]),
        Err(Error::Protocol("no".to_string())),
        "the first refusal"
    );
    assert_eq!(*behind.0.lock().expect("behind"), vec![vec![1, 0xff]]);
    assert_eq!(receive(&mut bus, Duration::ZERO), Ok(None));
}

#[test]
fn replies_come_to_their_answers_or_to_the_first_refusal() {
    let asked: Vec<Arc<dyn Device>> = vec![
        Arc::new(Fixed(1, vec![9])),
        Arc::new(Sulking),
        Arc::new(Echo(1)),
    ];
    assert_eq!(
        gather(&asked, &[1, 1], false),
        Err(Error::Protocol("no".to_string()))
    );
    assert_eq!(gather(&asked, &[1, 1], true), Ok(vec![vec![9], vec![1, 2]]));
    let mut answers: Vec<Vec<u8>> = vec![];
    assert_eq!(take_reply(&mut answers, Ok(Some(vec![3])), false), Ok(()));
    assert_eq!(take_reply(&mut answers, Ok(None), false), Ok(()));
    assert_eq!(take_reply(&mut answers, Err(Error::Break), true), Ok(()));
    assert_eq!(
        take_reply(&mut answers, Err(Error::Break), false),
        Err(Error::Break)
    );
    assert_eq!(answers, vec![vec![3]]);
}

#[test]
fn devices_stand_in_the_order_they_were_attached() {
    let bus = bus(&[4, 5]);
    let devices = bus.devices();
    assert_eq!(devices.len(), 2);
    assert_eq!(devices[1].hear(&[5, 1]), Ok(Some(vec![5, 2])));
    assert_eq!(devices[0].hear(&[5, 1]), Ok(None));
}

/// A device that keeps what it hears and says nothing.
struct Listening(Mutex<Vec<Vec<u8>>>);

impl Device for Listening {
    fn hear(&self, frame: &[u8]) -> Reply {
        self.0.lock().expect("one listener").push(frame.to_vec());
        Ok(None)
    }
}

#[test]
fn every_device_hears_every_frame_as_the_others_do() {
    let near = Arc::new(Listening(Mutex::new(vec![])));
    let far = Arc::new(Listening(Mutex::new(vec![])));
    let mut bus = Bus::new("rs485");
    bus.attach(near.clone());
    bus.attach(far.clone());
    bus.lose_a_character_every(2);
    bus.transmit(&[1, 2, 3]).expect("whole");
    bus.transmit(&[4, 5, 6]).expect("damaged");
    let heard = vec![vec![1, 2, 3], vec![4, 6]];
    assert_eq!(*near.0.lock().expect("near"), heard);
    assert_eq!(*far.0.lock().expect("far"), heard);
    assert!(matches!(
        bus.receive(Duration::from_secs(60)),
        Ok(Reading::Silence)
    ));
}
