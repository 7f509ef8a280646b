use gazelle_aggregate::rig::{numbered, Direction, Interface, Layout, Pick, Rig, Wired};

fn at(device: i32, channel: i32) -> Pick {
    Pick::new(device, channel)
}

/// The two cable rig: the Quadro plays out of two outputs, one into each interface.
fn two_cables() -> Rig {
    Rig::new(Direction::Inputs, vec![at(0, 0), at(0, 1)], vec![at(0, 0), at(1, 0)])
}

/// Interfaces with every channel exposed, in the order given.
fn layout(interfaces: &[(&str, i32, i32)]) -> Layout {
    let mut inputs = Vec::new();
    let mut outputs = Vec::new();
    for (index, &(_, ins, outs)) in interfaces.iter().enumerate() {
        inputs.extend((0..ins).map(|channel| (index, channel)));
        outputs.extend((0..outs).map(|channel| (index, channel)));
    }
    Layout {
        interfaces: interfaces
            .iter()
            .map(|&(name, ins, outs)| Interface {
                name: name.to_string(),
                inputs: ins,
                outputs: outs,
                phase_input: None,
                phase_outputs: Vec::new(),
            })
            .collect(),
        inputs,
        outputs,
    }
}

/// The rig as it is at the hardware: the Quadro's driver has sixteen channels each way, and the
/// Studio+'s twenty four.
fn quadro_and_studio() -> Layout {
    layout(&[("Quadro", 16, 16), ("Studio+", 24, 24)])
}

#[test]
fn the_two_cable_rig_from_the_readme_is_accepted_and_put_into_the_aggregates_numbers() {
    let rig = two_cables();
    assert_eq!(rig.refusal(), None);
    let wired = rig.wired(&quadro_and_studio()).expect("a good rig");
    // The Studio+'s first input comes after all sixteen of the Quadro's.
    assert_eq!(wired, Wired { outputs: vec![0, 1], inputs: vec![0, 16], witnesses: vec![] });
    assert_eq!(rig.devices(), 2);
}

#[test]
fn a_third_interface_is_a_third_cable_and_nothing_else() {
    let rig = Rig::new(Direction::Inputs, vec![at(0, 0), at(0, 1), at(0, 2)], vec![at(0, 0), at(1, 0), at(2, 0)]);
    assert_eq!(rig.refusal(), None);
    let three = layout(&[("Quadro", 16, 16), ("Studio+", 24, 24), ("Orion", 32, 32)]);
    assert_eq!(rig.wired(&three).expect("three cables").inputs, vec![0, 16, 40]);
}

#[test]
fn measuring_the_outputs_is_the_same_rig_with_the_cabling_turned_round() {
    // One output on each interface, all of them into inputs of the first.
    let rig = Rig::new(Direction::Outputs, vec![at(0, 0), at(1, 0)], vec![at(0, 0), at(0, 1)]);
    assert_eq!(rig.refusal(), None);
    let wired = rig.wired(&quadro_and_studio()).expect("a good rig");
    assert_eq!((wired.outputs, wired.inputs), (vec![0, 16], vec![0, 1]));
}

#[test]
fn outputs_spread_over_two_interfaces_are_refused_when_the_inputs_are_being_measured() {
    // Both copies of the click must leave the same device on the same sample, or the number
    // that comes out is not the inputs.
    let rig = Rig::new(Direction::Inputs, vec![at(0, 0), at(1, 0)], vec![at(0, 0), at(1, 0)]);
    let refusal = rig.wired(&quadro_and_studio()).expect_err("the outputs are on two devices");
    assert!(refusal.contains("Quadro") && refusal.contains("Studio+"), "{refusal}");
    assert!(refusal.contains("one interface"), "{refusal}");
}

#[test]
fn an_input_that_is_not_on_the_interface_it_was_listed_for_is_refused_by_name() {
    // Both cables arrive on the Quadro, so the second interface is not being measured at all.
    let rig = Rig::new(Direction::Inputs, vec![at(0, 0), at(0, 1)], vec![at(0, 0), at(0, 2)]);
    let refusal = rig.wired(&quadro_and_studio()).expect_err("the second cable is on the Quadro");
    assert!(refusal.starts_with("Quadro input 3 was given as Studio+'s cable"), "{refusal}");
}

#[test]
fn a_channel_the_interface_has_not_got_is_refused_with_how_many_it_has() {
    // Input 17 of a sixteen input interface, which is exactly the channel a count of the
    // interface's channels that was two short would never have offered.
    let rig = Rig::new(Direction::Inputs, vec![at(0, 0), at(0, 1)], vec![at(0, 16), at(1, 0)]);
    let refusal = rig.wired(&quadro_and_studio()).expect_err("the Quadro has sixteen inputs");
    assert!(refusal.contains("Quadro has 16 inputs, numbered 1 to 16"), "{refusal}");
    assert!(refusal.contains("no input 17"), "{refusal}");
    assert!(refusal.contains("0 to 15"), "and how a request counts them: {refusal}");

    let far = Rig::new(Direction::Inputs, vec![at(0, 0), at(0, 30)], vec![at(0, 0), at(1, 0)]);
    let refusal = far.wired(&quadro_and_studio()).expect_err("the Quadro has sixteen outputs");
    assert!(refusal.contains("Quadro has 16 outputs, numbered 1 to 16"), "{refusal}");
}

#[test]
fn an_interface_that_is_not_one_of_them_is_refused_and_the_ones_there_are_are_named() {
    let rig = Rig::new(Direction::Inputs, vec![at(0, 0), at(0, 1)], vec![at(0, 0), at(1, 0)]).watching(vec![at(2, 0)]);
    assert_eq!(rig.refusal(), None, "nothing about the request on its own says there is no third interface");
    let refusal = rig.wired(&quadro_and_studio()).expect_err("there are two interfaces");
    assert!(refusal.starts_with("interface 2 is not one of them"), "{refusal}");
    assert!(refusal.contains("0 is Quadro, 1 is Studio+"), "{refusal}");

    let negative = Rig::new(Direction::Inputs, vec![at(0, 0), at(0, 1)], vec![at(0, 0), at(-1, 0)]);
    assert!(negative.refusal().expect("minus one is no interface").contains("interface -1 is not one of them"));
}

#[test]
fn a_channel_the_setup_keeps_out_of_the_aggregate_is_refused_and_the_ones_it_exposes_are_listed() {
    let mut kept = quadro_and_studio();
    // The Studio+ exposes its first four inputs and its seventh, and nothing else.
    kept.inputs.retain(|&(device, channel)| device == 0 || channel < 4 || channel == 6);
    let rig = Rig::new(Direction::Inputs, vec![at(0, 0), at(0, 1)], vec![at(0, 0), at(1, 4)]);
    let refusal = rig.wired(&kept).expect_err("Studio+ input 5 is not exposed");
    assert!(refusal.starts_with("Studio+ input 5 is kept out of the aggregate"), "{refusal}");
    assert!(refusal.contains("(1 to 4 and 7)"), "{refusal}");
    // And the ones it does expose are where the Quadro's sixteen leave them.
    let fine = Rig::new(Direction::Inputs, vec![at(0, 0), at(0, 1)], vec![at(0, 0), at(1, 6)]);
    assert_eq!(fine.wired(&kept).expect("Studio+ input 7 is exposed").inputs, vec![0, 20]);
}

#[test]
fn a_channel_kept_for_the_phase_measurement_is_refused_and_says_that_is_why() {
    let mut phased = quadro_and_studio();
    phased.interfaces[1].phase_input = Some(2);
    phased.interfaces[0].phase_outputs = vec![(2, "Studio+".to_string())];
    phased.inputs.retain(|&at| at != (1, 2));
    phased.outputs.retain(|&at| at != (0, 2));

    let on_input = Rig::new(Direction::Inputs, vec![at(0, 0), at(0, 1)], vec![at(0, 0), at(1, 2)]);
    let refusal = on_input.wired(&phased).expect_err("Studio+ input 3 carries the phase");
    assert!(refusal.starts_with("Studio+ input 3 is where Studio+'s phase measurement arrives"), "{refusal}");
    assert!(refusal.contains("Phase setup"), "{refusal}");

    let on_output = Rig::new(Direction::Inputs, vec![at(0, 0), at(0, 2)], vec![at(0, 0), at(1, 0)]);
    let refusal = on_output.wired(&phased).expect_err("Quadro output 3 carries the phase");
    assert!(refusal.starts_with("Quadro output 3 carries the signal Studio+'s phase is measured with"), "{refusal}");

    let witness = two_cables().watching(vec![at(1, 2)]);
    let refusal = witness.wired(&phased).expect_err("and it is not there to listen in on either");
    assert!(refusal.contains("phase measurement") && refusal.contains("listen in on"), "{refusal}");

    // The Studio+'s fourth input is its third channel in the aggregate now.
    let beside = Rig::new(Direction::Inputs, vec![at(0, 0), at(0, 1)], vec![at(0, 0), at(1, 3)]);
    assert_eq!(beside.wired(&phased).expect("input 4 is exposed").inputs, vec![0, 18]);
}

#[test]
fn a_rig_that_does_not_cover_every_interface_is_refused_before_anything_is_opened() {
    let one = Rig::new(Direction::Inputs, vec![at(0, 0)], vec![at(0, 0)]);
    let refusal = one.refusal().expect("one interface is nothing to compare");
    assert!(refusal.contains("two"), "{refusal}");
    let lopsided = Rig::new(Direction::Inputs, vec![at(0, 0), at(0, 1), at(0, 2)], vec![at(0, 0), at(1, 0)]);
    assert!(lopsided.refusal().expect("the two lists differ").contains("one of each"));
    let missing = two_cables().wired(&layout(&[("Quadro", 16, 16)]));
    assert!(missing.expect_err("the aggregate has one device").contains("aggregate has 1 (Quadro)"));
}

#[test]
fn one_cable_named_twice_is_refused_rather_than_measured() {
    let same_output = Rig::new(Direction::Inputs, vec![at(0, 0), at(0, 0)], vec![at(0, 0), at(1, 0)]);
    let refusal = same_output.refusal().expect("one output, two cables");
    assert_eq!(
        refusal,
        "output 1 of the first interface is cabled twice, and every cable needs a channel of its own so that the \
         two copies of the click can be told apart"
    );
    let same_input = Rig::new(Direction::Inputs, vec![at(0, 0), at(0, 1)], vec![at(0, 0), at(0, 0)]);
    assert!(same_input.refusal().expect("one input for two interfaces").contains("two interfaces"));
    let negative = Rig::new(Direction::Inputs, vec![at(0, 0), at(0, 1)], vec![at(0, 0), at(1, -3)]);
    assert!(negative.refusal().expect("minus three is no channel").contains("counts each interface's own inputs from zero"));
}

#[test]
fn a_witness_on_an_interface_that_is_already_being_measured_is_the_whole_point_of_one() {
    // Studio+ input 1 is the measured channel, and Studio+ input 2 is carried along beside it.
    // One run, two of the same interface's inputs, which is what answers whether they move
    // together.
    let rig = two_cables().watching(vec![at(1, 1)]);
    assert_eq!(rig.refusal(), None);
    assert_eq!(rig.wired(&quadro_and_studio()).expect("a good rig").witnesses, vec![17]);
}

#[test]
fn a_witness_on_the_reference_interface_is_allowed_just_the_same() {
    let rig = two_cables().watching(vec![at(0, 4)]);
    assert_eq!(rig.refusal(), None);
    assert_eq!(rig.wired(&quadro_and_studio()).expect("a good rig").witnesses, vec![4]);
}

#[test]
fn a_witness_that_is_not_a_channel_is_refused_before_anything_is_opened() {
    let negative = two_cables().watching(vec![at(1, -1)]);
    assert!(negative.refusal().is_some(), "minus one is not a channel");
    // A channel the interface has not got needs its driver to say so, and it is said before
    // a buffer is made or a sample is played.
    let missing = two_cables().watching(vec![at(1, 99)]);
    assert_eq!(missing.refusal(), None, "nothing about the cabling itself is wrong");
    let refusal = missing.wired(&quadro_and_studio()).expect_err("the Studio+ has 24 inputs");
    assert!(refusal.contains("Studio+ has 24 inputs, numbered 1 to 24"), "{refusal}");
    assert!(refusal.contains("listen in on"), "{refusal}");
}

#[test]
fn a_witness_that_is_already_being_measured_is_refused_rather_than_recorded_twice() {
    let clash = two_cables().watching(vec![at(1, 0)]);
    let refusal = clash.refusal().expect("the Studio+'s first input is its measured input");
    assert!(refusal.starts_with("input 1 of the second interface is already"), "{refusal}");
    assert!(refusal.contains("witness"), "and it says what a witness is for: {refusal}");
    // The reference's own input is a measured channel too.
    assert!(two_cables().watching(vec![at(0, 0)]).refusal().is_some());
    // The same channel number on another interface is another channel.
    assert_eq!(two_cables().watching(vec![at(0, 16)]).refusal(), None);
    // And naming one twice is the same mistake said the other way round.
    let twice = two_cables().watching(vec![at(1, 1), at(1, 1)]);
    assert!(twice.refusal().expect("named twice").contains("twice"));
}

#[test]
fn channel_numbers_are_said_as_a_person_counts_them() {
    assert_eq!(numbered(&[0, 1, 2, 3, 6]), "1 to 4 and 7");
    assert_eq!(numbered(&[8, 0, 1, 4]), "1 to 2, 5 and 9");
    assert_eq!(numbered(&[5]), "6");
}


#[test]
fn every_refusal_of_the_cabling_itself_is_said_in_full() {
    let lopsided = Rig::new(Direction::Inputs, vec![at(0, 0)], vec![at(0, 0), at(1, 0)]);
    assert_eq!(
        lopsided.refusal().unwrap(),
        "this rig names 2 input channels and 1 output channels, and it needs one of each per interface: write the \
         channel each interface's cable is plugged into, in the order the interfaces appear in aggregate.json"
    );
    let mut far = two_cables();
    far.reference = 2;
    assert_eq!(
        far.refusal().unwrap(),
        "the reference is interface 2, and this rig only describes 2: the reference is the interface the others are \
         lined up to, counted from zero"
    );
    let twice = two_cables().watching(vec![at(1, 1), at(1, 1)]);
    assert_eq!(
        twice.refusal().unwrap(),
        "input 2 of the second interface is listened in on twice, and one channel is one recording: name it once and \
         it is carried along once"
    );
    let far_away = Rig::new(Direction::Inputs, vec![at(9, 0), at(9, 1)], vec![at(0, 0), at(1, 0)]);
    assert_eq!(far_away.refusal(), None);
    let same_input = Rig::new(Direction::Inputs, vec![at(0, 0), at(0, 1)], vec![at(11, 2), at(11, 2)]);
    assert_eq!(
        same_input.refusal().unwrap(),
        "input 3 of interface 11 is named for two interfaces at once, and each interface needs its own cable"
    );
}

#[test]
fn the_side_and_the_trim_a_direction_means_are_named_for_the_file() {
    assert_eq!(Direction::Inputs.as_str(), "inputs");
    assert_eq!(Direction::Outputs.as_str(), "outputs");
    assert_eq!(Direction::Inputs.trim_field(), "input_trim");
    assert_eq!(Direction::Outputs.trim_field(), "output_trim");
}

#[test]
fn a_channel_on_an_interface_with_none_of_that_side_says_so() {
    let rig = Rig::new(Direction::Inputs, vec![at(0, 0), at(0, 1)], vec![at(0, 0), at(1, 0)]);
    let refusal = rig.wired(&layout(&[("Quadro", 16, 16), ("Orion", 0, 8)])).expect_err("no inputs at all");
    assert_eq!(refusal, "Orion has no inputs at all, so there is no input 1 on it to record the click on");
    let spread = Rig::new(Direction::Inputs, vec![at(0, 0), at(1, 0)], vec![at(0, 0), at(1, 0)]);
    assert_eq!(
        spread.wired(&quadro_and_studio()).unwrap_err(),
        "the outputs this rig names are spread across Quadro and Studio+, and they all have to be on one interface: \
         that is what makes both copies of the click leave on the same sample"
    );
}

#[test]
fn a_channel_kept_out_when_nothing_on_that_interface_is_exposed_says_to_expose_it() {
    let mut none = quadro_and_studio();
    none.inputs.retain(|&(device, _)| device == 0);
    let rig = two_cables();
    assert_eq!(
        rig.wired(&none).unwrap_err(),
        "Studio+ input 1 is kept out of the aggregate by the setup, and so is every other input Studio+ has, so there \
         is nothing there to record the click on: expose it on Studio+'s card"
    );
}

#[test]
fn numbers_that_come_once_or_not_at_all_are_said_plainly() {
    assert_eq!(numbered(&[]), "");
    assert_eq!(numbered(&[3, 3, 3]), "4");
    assert_eq!(numbered(&[2, 1, 0]), "1 to 3");
    assert_eq!(numbered(&[0, 2, 4]), "1, 3 and 5");
}

#[test]
fn settings_that_could_not_measure_anything_are_refused_in_the_order_they_are_checked() {
    let refusal = gazelle_aggregate::rig::settings_refusal;
    assert_eq!(refusal(8, true, 64, 512, true, None, None), None);
    assert!(refusal(1, true, 64, 512, true, None, None).unwrap().starts_with("a run needs at least two clicks"));
    assert_eq!(
        refusal(8, false, 64, 512, true, None, None),
        Some("the clicks have to be some time apart, and this run puts them all at once".to_string())
    );
    assert!(refusal(8, true, 1, 512, true, None, None).unwrap().starts_with("a click of 1 samples is too short"));
    assert_eq!(
        refusal(8, true, 64, 0, true, None, None),
        Some("nothing can be found if the search is zero samples wide".to_string())
    );
    assert_eq!(refusal(8, true, 64, 512, false, None, None), Some("the settling time is not a number of seconds".to_string()));
    assert_eq!(refusal(8, true, 64, 512, true, Some("0"), None), Some("0 is not a sample rate".to_string()));
    assert_eq!(refusal(8, true, 64, 512, true, None, Some(-1)), Some("-1 samples is not a buffer size".to_string()));
    assert_eq!(refusal(8, true, 64, 512, true, None, Some(256)), None);
    // The first thing wrong is the one said.
    assert!(refusal(1, false, 1, 0, false, Some("0"), Some(0)).unwrap().starts_with("a run needs at least two clicks"));
}
