use loro_internal::fuzz::richtext::test_multi_sites;
use loro_internal::fuzz::richtext::Action::{Checkout, RichText, Sync, SyncAll};
use loro_internal::fuzz::richtext::RichTextAction;

#[test]
fn fuzz1() {
    assert!(test_multi_sites(
            5,
            &mut [
                RichText {
                    site: 255,
                    pos: 72057594037927935,
                    value: 18446744073709508608,
                    action: RichTextAction::Mark(18446744073698541568),
                },
                RichText {
                    site: 55,
                    pos: 3978709506094226231,
                    value: 3978709268954218551,
                    action: RichTextAction::Mark(15335939993951284180),
                },
                RichText {
                    site: 0,
                    pos: 72057594021150720,
                    value: 3978709660713025611,
                    action: RichTextAction::Insert,
                },
            ],
        ));
}

#[test]
fn richtext_fuzz_2() {
    assert!(test_multi_sites(
            5,
            &mut [
                RichText {
                    site: 0,
                    pos: 0,
                    value: 18437736874454765568,
                    action: RichTextAction::Insert,
                },
                RichText {
                    site: 0,
                    pos: 9,
                    value: 11156776183901913088,
                    action: RichTextAction::Insert,
                },
                RichText {
                    site: 0,
                    pos: 8,
                    value: 28,
                    action: RichTextAction::Mark(0),
                },
                SyncAll,
                RichText {
                    site: 0,
                    pos: 24,
                    value: 3558932692,
                    action: RichTextAction::Insert,
                },
                RichText {
                    site: 0,
                    pos: 10,
                    value: 18374685380159995904,
                    action: RichTextAction::Insert,
                },
                RichText {
                    site: 0,
                    pos: 60,
                    value: 6,
                    action: RichTextAction::Mark(0),
                },
                RichText {
                    site: 4,
                    pos: 0,
                    value: 3158382343024284628,
                    action: RichTextAction::Insert,
                },
                RichText {
                    site: 3,
                    pos: 4,
                    value: 21,
                    action: RichTextAction::Mark(0),
                },
                RichText {
                    site: 0,
                    pos: 3,
                    value: 12,
                    action: RichTextAction::Mark(0),
                },
                RichText {
                    site: 0,
                    pos: 78,
                    value: 120259084288,
                    action: RichTextAction::Insert,
                },
                RichText {
                    site: 0,
                    pos: 32,
                    value: 5,
                    action: RichTextAction::Mark(2),
                },
                RichText {
                    site: 3,
                    pos: 12,
                    value: 181419418583088,
                    action: RichTextAction::Insert,
                },
                RichText {
                    site: 0,
                    pos: 48,
                    value: 23,
                    action: RichTextAction::Mark(3),
                },
                RichText {
                    site: 0,
                    pos: 40,
                    value: 21,
                    action: RichTextAction::Mark(0),
                },
                RichText {
                    site: 3,
                    pos: 2,
                    value: 11140450636105252867,
                    action: RichTextAction::Insert,
                },
                SyncAll,
                RichText {
                    site: 0,
                    pos: 116,
                    value: 212,
                    action: RichTextAction::Insert,
                },
                RichText {
                    site: 0,
                    pos: 66,
                    value: 2421481759735939069,
                    action: RichTextAction::Insert,
                },
                RichText {
                    site: 0,
                    pos: 13,
                    value: 3917287250882199552,
                    action: RichTextAction::Insert,
                },
                RichText {
                    site: 0,
                    pos: 176,
                    value: 6917529027792076800,
                    action: RichTextAction::Insert,
                },
                RichText {
                    site: 4,
                    pos: 83,
                    value: 62,
                    action: RichTextAction::Delete,
                },
            ],
        ));
}

#[test]
fn checkout() {
    assert!(test_multi_sites(
            5,
            &mut [
                RichText {
                    site: 212,
                    pos: 6542548,
                    value: 165,
                    action: RichTextAction::Delete,
                },
                RichText {
                    site: 106,
                    pos: 7668058320836127338,
                    value: 7668058320836127338,
                    action: RichTextAction::Delete,
                },
                Checkout {
                    site: 106,
                    to: 1785358954,
                },
            ],
        ));
}

#[test]
fn checkout_delete() {
    assert!(test_multi_sites(
            5,
            &mut [
                RichText {
                    site: 0,
                    pos: 0,
                    value: 0,
                    action: RichTextAction::Mark(3098706341580712916),
                },
                RichText {
                    site: 0,
                    pos: 196608,
                    value: 16558833364434944,
                    action: RichTextAction::Delete,
                },
                SyncAll,
                Checkout { site: 3, to: 0 },
                RichText {
                    site: 0,
                    pos: 12080808861146021892,
                    value: 12080808863958804391,
                    action: RichTextAction::Delete,
                },
                SyncAll,
            ],
        ));
}

#[test]
fn checkout2() {
    assert!(test_multi_sites(
            5,
            &mut [
                RichText {
                    site: 37,
                    pos: 144115188075855653,
                    value: 88888888888888,
                    action: RichTextAction::Insert,
                },
                SyncAll,
                RichText {
                    site: 37,
                    pos: 18385141895277128741,
                    value: 18422257949758979904,
                    action: RichTextAction::Mark(18446528569430507519),
                },
                RichText {
                    site: 37,
                    pos: 2676586395015587109,
                    value: 7777777777777777777,
                    action: RichTextAction::Insert,
                },
                Checkout {
                    site: 84,
                    to: 1414812756,
                },
                SyncAll,
                RichText {
                    site: 0,
                    pos: 18446462598732840960,
                    value: 6666666666666666666,
                    action: RichTextAction::Insert,
                },
                Checkout {
                    site: 126,
                    to: 2567001172,
                },
                Checkout {
                    site: 84,
                    to: 1414812756,
                },
                SyncAll,
            ],
        ));
}

#[test]
fn checkout_3() {
    assert!(test_multi_sites(
            5,
            &mut [
                RichText {
                    site: 0,
                    pos: 5908722711110090752,
                    value: 5931894172722287186,
                    action: RichTextAction::Insert,
                },
                Checkout {
                    site: 82,
                    to: 1381126738,
                },
                RichText {
                    site: 212,
                    pos: 15336116641665330132,
                    value: 15335883693215765716,
                    action: RichTextAction::Mark(2966521040065582292),
                },
                SyncAll,
                RichText {
                    site: 253,
                    pos: 15276210850130558976,
                    value: 4174656672104448,
                    action: RichTextAction::Mark(3170534137649176832),
                },
                RichText {
                    site: 0,
                    pos: 15283557786841306112,
                    value: 8366027960336307412,
                    action: RichTextAction::Delete,
                },
                RichText {
                    site: 26,
                    pos: 7696582235254,
                    value: 0,
                    action: RichTextAction::Insert,
                },
                Checkout {
                    site: 212,
                    to: 54387,
                },
                RichText {
                    site: 0,
                    pos: 15335884830126637056,
                    value: 14395694394764215508,
                    action: RichTextAction::Mark(1880844493352075264),
                },
                Checkout {
                    site: 43,
                    to: 23357908,
                },
                RichText {
                    site: 0,
                    pos: 8391361093162777600,
                    value: 1874573671255012468,
                    action: RichTextAction::Insert,
                },
                RichText {
                    site: 26,
                    pos: 1933217919218752026,
                    value: 2314885532965937270,
                    action: RichTextAction::Insert,
                },
                RichText {
                    site: 33,
                    pos: 4407665038823784148,
                    value: 15336116638101536777,
                    action: RichTextAction::Mark(8391360705119704276),
                },
                RichText {
                    site: 26,
                    pos: 14106654022170,
                    value: 7,
                    action: RichTextAction::Insert,
                },
                SyncAll,
                RichText {
                    site: 0,
                    pos: 0,
                    value: 14339677631930434048,
                    action: RichTextAction::Mark(3556784640),
                },
                RichText {
                    site: 26,
                    pos: 100321451692029044,
                    value: 16888498602639360,
                    action: RichTextAction::Delete,
                },
                Checkout {
                    site: 116,
                    to: 436458194,
                },
                RichText {
                    site: 0,
                    pos: 8391360705107466752,
                    value: 11538257936951552884,
                    action: RichTextAction::Insert,
                },
                RichText {
                    site: 32,
                    pos: 100663310,
                    value: 302447620784142,
                    action: RichTextAction::Insert,
                },
            ],
        ));
}

#[test]
fn checkout_4() {
    assert!(test_multi_sites(
            5,
            &mut [
                RichText {
                    site: 5,
                    pos: 1010580480,
                    value: 0,
                    action: RichTextAction::Insert,
                },
                SyncAll,
                RichText {
                    site: 0,
                    pos: 2377900603268071424,
                    value: 2387225703656530209,
                    action: RichTextAction::Insert,
                },
                RichText {
                    site: 33,
                    pos: 6701392671700754720,
                    value: 2387189277486809121,
                    action: RichTextAction::Delete,
                },
                Sync { from: 137, to: 137 },
                RichText {
                    site: 33,
                    pos: 2377900746545832225,
                    value: 9928747371269792033,
                    action: RichTextAction::Delete,
                },
                Checkout {
                    site: 137,
                    to: 16777215,
                },
                RichText {
                    site: 0,
                    pos: 1993875390464,
                    value: 38712713492299776,
                    action: RichTextAction::Mark(12731870418897514672),
                },
                Sync { from: 176, to: 91 },
                Sync { from: 137, to: 137 },
            ],
        ));
}

#[test]
fn checkout_5() {
    assert!(test_multi_sites(
            5,
            &mut [
                RichText {
                    site: 0,
                    pos: 9910603113857775223,
                    value: 8536291640920163781,
                    action: RichTextAction::Mark(516939283022490631),
                },
                Checkout {
                    site: 66,
                    to: 1111638594,
                },
                Checkout {
                    site: 95,
                    to: 65417,
                },
                SyncAll,
                RichText {
                    site: 0,
                    pos: 280965477201664,
                    value: 622770227593,
                    action: RichTextAction::Insert,
                },
                Sync { from: 137, to: 139 },
                RichText {
                    site: 255,
                    pos: 36659862010,
                    value: 14497138624149061632,
                    action: RichTextAction::Insert,
                },
                Checkout {
                    site: 31,
                    to: 773922591,
                },
                RichText {
                    site: 0,
                    pos: 8759942810400289,
                    value: 2377900603251727259,
                    action: RichTextAction::Insert,
                },
                Sync { from: 155, to: 1 },
            ],
        ));
}

#[test]
fn allow_overlap() {
    assert!(test_multi_sites(
            5,
            &mut [
                RichText {
                    site: 255,
                    pos: 562949940576255,
                    value: 10,
                    action: RichTextAction::Insert,
                },
                RichText {
                    site: 0,
                    pos: 52793738066393,
                    value: 15637060856183783423,
                    action: RichTextAction::Mark(15697817505862638041),
                },
            ],
        ));
}

#[test]
fn checkout_err() {
    assert!(test_multi_sites(
            5,
            &mut [
                RichText {
                    site: 1,
                    pos: 72057594977517568,
                    value: 0,
                    action: RichTextAction::Insert,
                },
                RichText {
                    site: 1,
                    pos: 279268526740791,
                    value: 18446744069419041023,
                    action: RichTextAction::Insert,
                },
                RichText {
                    site: 1,
                    pos: 278391190192126,
                    value: 18446744070572146943,
                    action: RichTextAction::Mark(6196952189613637631),
                },
                RichText {
                    site: 251,
                    pos: 863599313408753663,
                    value: 458499228937131,
                    action: RichTextAction::Mark(72308159810888675),
                },
            ],
        ));
}

#[test]
fn checkout_err_2() {
    assert!(test_multi_sites(
            3,
            &mut [
                RichText {
                    site: 1,
                    pos: 0,
                    value: 14497138626449185274,
                    action: RichTextAction::Insert,
                },
                RichText {
                    site: 1,
                    pos: 5,
                    value: 10,
                    action: RichTextAction::Mark(8536327904765227054),
                },
                RichText {
                    site: 1,
                    pos: 14,
                    value: 6,
                    action: RichTextAction::Mark(13562224825669899),
                },
                Checkout {
                    site: 1,
                    to: 522133279,
                },
            ],
        ));
}

#[test]
fn checkout_err_3() {
    assert!(test_multi_sites(
            5,
            &mut [
                RichText {
                    site: 25,
                    pos: 18446490194317148160,
                    value: 18446744073709551615,
                    action: RichTextAction::Mark(18446744073709551615),
                },
                SyncAll,
                RichText {
                    site: 25,
                    pos: 48378530044185,
                    value: 9910452455013810176,
                    action: RichTextAction::Insert,
                },
                RichText {
                    site: 4,
                    pos: 359156590005978116,
                    value: 72057576757069051,
                    action: RichTextAction::Insert,
                },
                RichText {
                    site: 60,
                    pos: 289360692308608004,
                    value: 359156590005978116,
                    action: RichTextAction::Mark(289360751431254011),
                },
                RichText {
                    site: 4,
                    pos: 18446744073709551364,
                    value: 18446744073709551615,
                    action: RichTextAction::Mark(18446744069482020863),
                },
            ],
        ));
}

#[test]
fn iter_range_err() {
    assert!(test_multi_sites(
            5,
            &mut [
                RichText {
                    site: 1,
                    pos: 939589632,
                    value: 256,
                    action: RichTextAction::Insert,
                },
                RichText {
                    site: 1,
                    pos: 279268526740791,
                    value: 18446744069419041023,
                    action: RichTextAction::Insert,
                },
                RichText {
                    site: 1,
                    pos: 278383768546103,
                    value: 18446744069419041023,
                    action: RichTextAction::Mark(6196952189613637631),
                },
                RichText {
                    site: 251,
                    pos: 863599313408753663,
                    value: 458499228937131,
                    action: RichTextAction::Mark(2378151169024582627),
                },
            ],
        ));
}
