use windowrs::Window;
use windowrs::Windower;
use windowrs::Windows;

#[test]
fn can_use_next() {
    let elems = &[1, 2, 3, 4];
    let mut win = Windows::new(elems, 2, 1);
    assert_eq!(win.next().unwrap(), Window::new(0, 2, &[1, 2][..]));
    assert_eq!(win.next().unwrap(), Window::new(1, 3, &[2, 3][..]));
    assert_eq!(win.next().unwrap(), Window::new(2, 4, &[3, 4][..]));
    assert!(win.next().is_none());

    let elems = &[1, 2, 3, 4, 5, 6, 7];
    let mut win = Windows::new(elems, 3, 1);
    assert_eq!(win.next().unwrap(), Window::new(0, 3, &[1, 2, 3][..]));
    assert_eq!(win.next().unwrap(), Window::new(1, 4, &[2, 3, 4][..]));
    assert_eq!(win.next().unwrap(), Window::new(2, 5, &[3, 4, 5][..]));
    assert_eq!(win.next().unwrap(), Window::new(3, 6, &[4, 5, 6][..]));
    assert_eq!(win.next().unwrap(), Window::new(4, 7, &[5, 6, 7][..]));
    assert!(win.next().is_none());
}

#[test]
fn handles_incomplete_windows() {
    let elems = &[1, 2, 3, 4];
    let mut win = Windows::new(elems, 3, 2);
    assert_eq!(win.next().unwrap(), Window::new(0, 3, &[1, 2, 3][..]));
    assert_eq!(win.next().unwrap(), Window::new(2, 4, &[3, 4][..]));
    assert!(win.next().is_none());

    let elems = &[1, 2, 3, 4, 5, 6];
    let mut win = Windows::new(elems, 3, 2);
    assert_eq!(win.next().unwrap(), Window::new(0, 3, &[1, 2, 3][..]));
    assert_eq!(win.next().unwrap(), Window::new(2, 5, &[3, 4, 5][..]));
    assert_eq!(win.next().unwrap(), Window::new(4, 6, &[5, 6][..]));
    assert!(win.next().is_none());
}

#[test]
fn handles_single_step() {
    let elems = &[1, 2, 3, 4];
    let mut win = Windows::new(elems, 4, 2);
    assert_eq!(win.next().unwrap(), Window::new(0, 4, &[1, 2, 3, 4][..]));
    assert!(win.next().is_none());

    let elems: &[u8] = b"This is";
    let mut win = Windows::new(elems, 20, 1);
    assert_eq!(win.next().unwrap(), Window::new(0, 7, b"This is" as &[u8]));
    assert!(win.next().is_none());
}

#[test]
fn correct_len() {
    let elems = &[1, 2, 3, 4, 5, 6, 7, 8, 9, 10, 11, 12];
    let win = Windows::new(elems, 6, 2);
    assert_eq!(win.len(), 4);
    let win = Windows::new(elems, 7, 2);
    assert_eq!(win.len(), 4);
    let win = Windows::new(elems, 7, 3);
    assert_eq!(win.len(), 3);

    let elems = &[1, 2, 3, 4, 5, 6, 7];
    let win = Windows::new(elems, 3, 1);
    assert_eq!(win.len(), 5);
    let win = Windows::new(elems, 2, 1);
    assert_eq!(win.len(), 6);

    let elems = &[1, 2, 3, 4, 5, 6];
    let win = Windows::new(elems, 1, 1);
    assert_eq!(win.len(), 6);
    let win = Windows::new(elems, 3, 2);
    assert_eq!(win.len(), 3);
    let win = Windows::new(elems, 3, 3);
    assert_eq!(win.len(), 2);
    let win = Windows::new(elems, 4, 2);
    assert_eq!(win.len(), 2);
    let win = Windows::new(elems, 4, 3);
    assert_eq!(win.len(), 2);
    let win = Windows::new(elems, 6, 3);
    assert_eq!(win.len(), 1);
}

#[test]
fn gets_last() {
    let elems = &[1, 2, 3, 4];
    let win = Windows::new(elems, 3, 2);
    assert_eq!(win.last().unwrap(), Window::new(2, 4, &[3, 4][..]));

    let elems = &[1, 2, 3, 4, 5, 6];
    let win = Windows::new(elems, 3, 2);
    assert_eq!(win.last().unwrap(), Window::new(4, 6, &[5, 6][..]));
}

#[test]
fn gets_nth() {
    let elems = &[1, 2, 3, 4, 5, 6, 7];
    let mut win = Windows::new(elems, 3, 1);
    assert_eq!(win.nth(1).unwrap(), Window::new(1, 4, &[2, 3, 4][..]));
    assert_eq!(win.next().unwrap(), Window::new(2, 5, &[3, 4, 5][..]));

    let mut win = Windows::new(elems, 3, 1);
    assert_eq!(win.nth(3).unwrap(), Window::new(3, 6, &[4, 5, 6][..]));
    assert_eq!(win.next().unwrap(), Window::new(4, 7, &[5, 6, 7][..]));

    println!("last");
    let mut win = Windows::new(elems, 3, 2);
    assert_eq!(win.nth(1).unwrap(), Window::new(2, 5, &[3, 4, 5][..]));
    assert_eq!(win.next().unwrap(), Window::new(4, 7, &[5, 6, 7][..]));
    assert!(win.next().is_none());
}

#[test]
fn maps_ok() {
    let elems: &[u32] = &[1, 1, 1, 2, 2, 2, 3, 3];
    let v: Vec<Window<u32>> = Windows::new(elems, 3, 1)
        .collect()
        .into_iter()
        .map(|w| w.map(|v| v.iter().cloned().fold(0u32, u32::max)))
        .collect();

    assert_eq!(v[0], Window::new(0, 3, 1));
    assert_eq!(v[5], Window::new(5, 8, 3));
}
