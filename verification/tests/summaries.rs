use field_tracker::tracker::{update_add, update_inv, update_mul, Tracker};

fn gkr_sumcheck_squence(tracker: &mut Tracker) {
    tracker.start("gkr");
    {
        tracker.start("sumcheck");
        {
            update_add(tracker);
            update_mul(tracker);
            tracker.start("poly");
            tracker.end();
        }
        tracker.end();

        tracker.start("sumcheck");
        {
            update_inv(tracker);
            tracker.start("poly");
            update_mul(tracker);
            tracker.end();
        }
        tracker.end();
    }
    update_add(tracker);
    tracker.end();
}

#[test]
fn test_nested_tracker_summary_call() {
    let mut tracker = Tracker::new();
    tracker.reset();

    tracker.start("GKR");
    update_inv(&mut tracker);
    assert_eq!(tracker.summary().values.inv, 1, "Wrong summary for inverse");

    tracker.start("Sumcheck");
    update_add(&mut tracker);
    update_add(&mut tracker);
    assert_eq!(tracker.summary().values.add, 2, "Wrong summary for add");
    update_mul(&mut tracker);
    update_inv(&mut tracker);
    assert_eq!(tracker.summary().values.add, 2, "Wrong summary for add");
    assert_eq!(tracker.summary().values.inv, 2, "Wrong summary for inv");
    assert_eq!(tracker.summary().values.mul, 1, "Wrong summary for mul");
    tracker.end();

    tracker.start("Sumcheck");
    update_mul(&mut tracker);
    update_mul(&mut tracker);
    update_mul(&mut tracker);
    assert_eq!(tracker.summary().values.mul, 4, "Wrong summary for mul");
    tracker.end();
    tracker.end();

    tracker.reset();
    tracker.summary();
    assert_eq!(tracker.summary().values.add, 0, "Wrong summary for add");
    assert_eq!(tracker.summary().values.inv, 0, "Wrong summary for inv");
    assert_eq!(tracker.summary().values.mul, 0, "Wrong summary for mul");
}

#[test]
fn test_one_layered_summary() {
    let mut tracker = Tracker::new();
    tracker.reset();
    tracker.start("GKR");
    update_add(&mut tracker);
    update_add(&mut tracker);
    update_inv(&mut tracker);
    update_mul(&mut tracker);
    tracker.end();
    assert_eq!(tracker.summary().values.add, 2, "Wrong number of add op");
    assert_eq!(tracker.summary().values.mul, 1, "Wrong number of mul op");
    assert_eq!(tracker.summary().values.inv, 1, "Wrong number of inv op");
    tracker.reset();
}

#[test]
fn test_correct_summary_report() {
    let mut tracker = Tracker::new();
    tracker.reset();
    tracker.start("gkr");
    {
        update_add(&mut tracker);
        let summary_1 = tracker.summary();
        assert_eq!(&summary_1.values.add, &1);
        assert_eq!(&summary_1.children.as_ref().unwrap()[0].values.add, &1);

        tracker.start("sumcheck");
        let summary_2 = {
            update_add(&mut tracker);
            update_inv(&mut tracker);
            let summary_2 = tracker.summary();

            // verify add
            assert_eq!(&summary_2.values.add, &2);
            assert_eq!(&summary_2.children.as_ref().unwrap()[0].values.add, &2);
            assert_eq!(
                &summary_2.children.as_ref().unwrap()[0]
                    .children
                    .as_ref()
                    .unwrap()[0]
                    .values
                    .add,
                &1
            );

            // verify mul
            assert_eq!(&summary_2.values.mul, &0);
            assert_eq!(&summary_2.children.as_ref().unwrap()[0].values.mul, &0);
            assert_eq!(
                &summary_2.children.as_ref().unwrap()[0]
                    .children
                    .as_ref()
                    .unwrap()[0]
                    .values
                    .mul,
                &0
            );

            // verify inv
            assert_eq!(&summary_2.values.inv, &1);
            assert_eq!(&summary_2.children.as_ref().unwrap()[0].values.inv, &1);
            assert_eq!(
                &summary_2.children.as_ref().unwrap()[0]
                    .children
                    .as_ref()
                    .unwrap()[0]
                    .values
                    .inv,
                &1
            );

            summary_2
        };
        tracker.end();

        // summary_2 == summary_3
        let summary_3 = tracker.summary();
        assert_eq!(summary_3, summary_2);

        update_mul(&mut tracker);
        let summary_4 = tracker.summary();

        // verify add
        assert_eq!(&summary_4.values.add, &2);
        assert_eq!(&summary_4.children.as_ref().unwrap()[0].values.add, &2);
        assert_eq!(
            &summary_4.children.as_ref().unwrap()[0]
                .children
                .as_ref()
                .unwrap()[0]
                .values
                .add,
            &1
        );

        // verify mul
        assert_eq!(&summary_4.values.mul, &1);
        assert_eq!(&summary_4.children.as_ref().unwrap()[0].values.mul, &1);
        assert_eq!(
            &summary_4.children.as_ref().unwrap()[0]
                .children
                .as_ref()
                .unwrap()[0]
                .values
                .mul,
            &0
        );

        // verify inv
        assert_eq!(&summary_4.values.inv, &1);
        assert_eq!(&summary_4.children.as_ref().unwrap()[0].values.inv, &1);
        assert_eq!(
            &summary_4.children.as_ref().unwrap()[0]
                .children
                .as_ref()
                .unwrap()[0]
                .values
                .inv,
            &1
        );

        tracker.start("sumcheck");
        {
            update_mul(&mut tracker);
            update_mul(&mut tracker);
            let summary_5 = tracker.summary();

            // verify add
            assert_eq!(&summary_5.values.add, &2);
            assert_eq!(&summary_5.children.as_ref().unwrap()[0].values.add, &2);
            assert_eq!(
                &summary_5.children.as_ref().unwrap()[0]
                    .children
                    .as_ref()
                    .unwrap()[0]
                    .values
                    .add,
                &1
            );
            assert_eq!(
                &summary_5.children.as_ref().unwrap()[0]
                    .children
                    .as_ref()
                    .unwrap()[1]
                    .values
                    .add,
                &0
            );

            // verify mul
            assert_eq!(&summary_5.values.mul, &3);
            assert_eq!(&summary_5.children.as_ref().unwrap()[0].values.mul, &3);
            assert_eq!(
                &summary_5.children.as_ref().unwrap()[0]
                    .children
                    .as_ref()
                    .unwrap()[0]
                    .values
                    .mul,
                &0
            );
            assert_eq!(
                &summary_5.children.as_ref().unwrap()[0]
                    .children
                    .as_ref()
                    .unwrap()[1]
                    .values
                    .mul,
                &2
            );

            // verify inv
            assert_eq!(&summary_5.values.inv, &1);
            assert_eq!(&summary_5.children.as_ref().unwrap()[0].values.inv, &1);
            assert_eq!(
                &summary_5.children.as_ref().unwrap()[0]
                    .children
                    .as_ref()
                    .unwrap()[0]
                    .values
                    .inv,
                &1
            );
            assert_eq!(
                &summary_5.children.as_ref().unwrap()[0]
                    .children
                    .as_ref()
                    .unwrap()[1]
                    .values
                    .inv,
                &0
            );

            update_add(&mut tracker);
        }
        tracker.end();
        let summary_6 = tracker.summary();

        // verify add
        assert_eq!(&summary_6.values.add, &3);
        assert_eq!(&summary_6.children.as_ref().unwrap()[0].values.add, &3);
        assert_eq!(
            &summary_6.children.as_ref().unwrap()[0]
                .children
                .as_ref()
                .unwrap()[0]
                .values
                .add,
            &1
        );
        assert_eq!(
            &summary_6.children.as_ref().unwrap()[0]
                .children
                .as_ref()
                .unwrap()[1]
                .values
                .add,
            &1
        );

        // verify mul
        assert_eq!(&summary_6.values.mul, &3);
        assert_eq!(&summary_6.children.as_ref().unwrap()[0].values.mul, &3);
        assert_eq!(
            &summary_6.children.as_ref().unwrap()[0]
                .children
                .as_ref()
                .unwrap()[0]
                .values
                .mul,
            &0
        );
        assert_eq!(
            &summary_6.children.as_ref().unwrap()[0]
                .children
                .as_ref()
                .unwrap()[1]
                .values
                .mul,
            &2
        );

        // verify inv
        assert_eq!(&summary_6.values.inv, &1);
        assert_eq!(&summary_6.children.as_ref().unwrap()[0].values.inv, &1);
        assert_eq!(
            &summary_6.children.as_ref().unwrap()[0]
                .children
                .as_ref()
                .unwrap()[0]
                .values
                .inv,
            &1
        );
        assert_eq!(
            &summary_6.children.as_ref().unwrap()[0]
                .children
                .as_ref()
                .unwrap()[1]
                .values
                .inv,
            &0
        );

        update_inv(&mut tracker);
    }
    tracker.end();

    let summary_7 = tracker.summary();
    // verify add
    assert_eq!(&summary_7.values.add, &3);
    assert_eq!(&summary_7.children.as_ref().unwrap()[0].values.add, &3);
    assert_eq!(
        &summary_7.children.as_ref().unwrap()[0]
            .children
            .as_ref()
            .unwrap()[0]
            .values
            .add,
        &1
    );
    assert_eq!(
        &summary_7.children.as_ref().unwrap()[0]
            .children
            .as_ref()
            .unwrap()[1]
            .values
            .add,
        &1
    );

    // verify mul
    assert_eq!(&summary_7.values.mul, &3);
    assert_eq!(&summary_7.children.as_ref().unwrap()[0].values.mul, &3);
    assert_eq!(
        &summary_7.children.as_ref().unwrap()[0]
            .children
            .as_ref()
            .unwrap()[0]
            .values
            .mul,
        &0
    );
    assert_eq!(
        &summary_7.children.as_ref().unwrap()[0]
            .children
            .as_ref()
            .unwrap()[1]
            .values
            .mul,
        &2
    );

    // verify inv
    assert_eq!(&summary_7.values.inv, &2);
    assert_eq!(&summary_7.children.as_ref().unwrap()[0].values.inv, &2);
    assert_eq!(
        &summary_7.children.as_ref().unwrap()[0]
            .children
            .as_ref()
            .unwrap()[0]
            .values
            .inv,
        &1
    );
    assert_eq!(
        &summary_7.children.as_ref().unwrap()[0]
            .children
            .as_ref()
            .unwrap()[1]
            .values
            .inv,
        &0
    );

    tracker.reset();
}

#[test]
fn test_display() {
    let mut tracker = Tracker::new();
    tracker.reset();
    gkr_sumcheck_squence(&mut tracker);

    println!("{}", tracker.summary().display());
    tracker.reset();
}

#[test]
#[should_panic]
fn test_end_tracker_inappropriately() {
    let mut tracker = Tracker::new();
    tracker.reset();
    tracker.summary();
    tracker.start("GKR");
    tracker.summary();
    tracker.start("Sumcheck");
    tracker.summary();
    tracker.try_end().unwrap();
    tracker.summary();
    tracker.try_end().unwrap();
    tracker.summary();
    tracker.try_end().unwrap();
    tracker.reset();
}

#[test]
#[should_panic]
fn test_should_panic_on_global_pop() {
    let mut tracker = Tracker::new();
    tracker.reset();
    tracker.try_end().unwrap();
    tracker.reset();
}
